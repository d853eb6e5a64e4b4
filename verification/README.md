# smolgpt

A workbench for small language models on arithmetic: build corpora, train a
bigram, n-gram or transformer model on them, measure how often it answers right,
reinforce it, and keep a registry of what was trained.

The library under `src/` is verified with [Verus](https://github.com/verus-lang/verus).
It holds everything that can be said about plain values:

- arithmetic corpora: reading, generating, splitting and drawing training windows;
- the shapes of models: head schedules, variables, parameter counts, n-gram keys;
- decoding, training control with early stopping and snapshots, evaluation, and
  the two reinforcement loops, as state machines that are driven from outside;
- the file format of quantised models, with a proof that a file gives back what
  was written into it;
- the model registry: its tables, what each operation keeps, and what a read
  gives back of a write.

Floating-point numbers pass through the library as their bits, or as ratios of
counts, or as the outcome of a comparison.

The program under `app/` does the rest: the command line, tensors, files, the
SQLite database and the external analysis script.

    smolgpt -k char -d data/arithmetic.txt -p model.bin --train --eval
    smolgpt gen-arithmetic --output data/arithmetic.txt --samples 200000
