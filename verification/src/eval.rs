//! Evaluation of arithmetic correctness: a run draws problems, takes the
//! completions of a model and tallies them.
use crate::error::fails_with;
use crate::error::ErrorView;
use crate::error::SmolError;
use crate::error::SmolResult;
use crate::list::copy_part;
use crate::number::push_decimal;
use crate::number::push_signed;
use crate::number::decimal;
use crate::number::signed_decimal;
use crate::problem::answer_digit_bucket;
use crate::problem::answers_fit;
use crate::problem::digit_bucket;
use crate::problem::draw_problem;
use crate::problem::drawn_problem;
use crate::problem::leading_int;
use crate::problem::parse_leading_int;
use crate::problem::parse_ops;
use crate::problem::parsed_ops;
use crate::problem::Problem;
use crate::rng::drawn_below;
use crate::rng::drawn_between;
use crate::rng::rng_for;
use crate::rng::rng_state;
use crate::rng::seeded_state;
use crate::text::before;
use crate::text::chars_of;
use crate::text::find_char;
use crate::text::text_of;
use rand::rngs::StdRng;
use vstd::prelude::*;
use vstd::string::*;

verus! {

/// How many worked samples a report keeps.
pub const MAX_EXAMPLES: usize = 10;

/// One judged completion, kept for display.
#[derive(Debug, Clone)]
pub struct EvalExample {
    pub prompt: String,
    pub generated: String,
    pub true_answer: i64,
    pub correct: bool,
}

/// The tallies of an evaluation. `by_digits` holds pairs of right and all
/// answers by the number of digits of the true answer: one, two, three, and
/// four or more.
#[derive(Debug, Clone)]
pub struct EvalReport {
    pub total: usize,
    pub correct: usize,
    pub correct_plus: usize,
    pub total_plus: usize,
    pub correct_minus: usize,
    pub total_minus: usize,
    pub by_digits: [(usize, usize); 4],
    pub examples: Vec<EvalExample>,
}

/// A problem together with the completion that was given for it.
pub struct Sample {
    pub problem: Problem,
    pub generated: Seq<char>,
}

impl Sample {
    /// Whether the completion starts with the right answer.
    pub open spec fn correct(&self) -> bool {
        leading_int(self.generated) == Some(self.problem.answer())
    }

    /// The bucket of the right answer.
    pub open spec fn bucket(&self) -> int {
        digit_bucket(self.problem.answer())
    }
}

/// How many of `samples` satisfy `which`.
pub open spec fn count(samples: Seq<Sample>, which: spec_fn(Sample) -> bool) -> nat
    decreases samples.len(),
{
    if samples.len() == 0 {
        0
    } else {
        count(samples.drop_last(), which) + if which(samples.last()) {
            1nat
        } else {
            0nat
        }
    }
}

proof fn lemma_count_push(samples: Seq<Sample>, x: Sample, which: spec_fn(Sample) -> bool)
    ensures
        count(samples.push(x), which) == count(samples, which) + if which(x) {
            1nat
        } else {
            0nat
        },
{
    assert(samples.push(x).drop_last() =~= samples);
}

proof fn lemma_count_le(
    samples: Seq<Sample>,
    small: spec_fn(Sample) -> bool,
    large: spec_fn(Sample) -> bool,
)
    requires
        forall|x: Sample| #[trigger] small(x) ==> large(x),
    ensures
        count(samples, small) <= count(samples, large) <= samples.len(),
    decreases samples.len(),
{
    if samples.len() > 0 {
        lemma_count_le(samples.drop_last(), small, large);
        assert(small(samples.last()) ==> large(samples.last()));
    }
}

impl EvalExample {
    /// Whether the example shows the sample `x`.
    pub open spec fn shows(&self, x: Sample) -> bool {
        &&& self.prompt@ == x.problem.prompt_text()
        &&& self.generated@ == x.generated
        &&& self.true_answer == x.problem.answer()
        &&& self.correct == x.correct()
    }
}

impl EvalReport {
    /// Whether the report tallies exactly `samples`.
    pub open spec fn tallies(&self, samples: Seq<Sample>) -> bool {
        &&& self.total == samples.len()
        &&& self.correct == count(samples, |x: Sample| x.correct())
        &&& self.total_plus == count(samples, |x: Sample| x.problem.op == '+')
        &&& self.correct_plus == count(samples, |x: Sample| x.problem.op == '+' && x.correct())
        &&& self.total_minus == count(samples, |x: Sample| x.problem.op != '+')
        &&& self.correct_minus == count(samples, |x: Sample| x.problem.op != '+' && x.correct())
        &&& forall|k: int|
            #![trigger self.by_digits@[k]]
            0 <= k < 4 ==> self.by_digits@[k].0 == count(
                samples,
                |x: Sample| x.bucket() == k && x.correct(),
            ) && self.by_digits@[k].1 == count(samples, |x: Sample| x.bucket() == k)
        &&& self.examples@.len() == if samples.len() < MAX_EXAMPLES {
            samples.len()
        } else {
            MAX_EXAMPLES as nat
        }
        &&& forall|k: int|
            0 <= k < self.examples@.len() ==> (#[trigger] self.examples@[k]).shows(samples[k])
    }

    /// Counts one more sample.
    pub(crate) fn record(&mut self, problem: Problem, generated: &str, Ghost(samples): Ghost<Seq<Sample>>)
        requires
            old(self).tallies(samples),
            samples.len() < usize::MAX,
            problem.fits(),
        ensures
            final(self).tallies(samples.push(Sample { problem, generated: generated@ })),
    {
        let true_answer: i64 = problem.true_answer();
        let correct: bool = match parse_leading_int(generated) {
            Some(n) => n == true_answer,
            None => false,
        };
        let ghost x = Sample { problem, generated: generated@ };
        let ghost more = samples.push(x);
        assert(correct == x.correct());
        let bucket: usize = answer_digit_bucket(true_answer);
        proof {
            lemma_count_push(samples, x, |x: Sample| x.correct());
            lemma_count_push(samples, x, |x: Sample| x.problem.op == '+');
            lemma_count_push(samples, x, |x: Sample| x.problem.op == '+' && x.correct());
            lemma_count_push(samples, x, |x: Sample| x.problem.op != '+');
            lemma_count_push(samples, x, |x: Sample| x.problem.op != '+' && x.correct());
            let all = |x: Sample| true;
            lemma_count_le(samples, |x: Sample| x.correct(), all);
            lemma_count_le(samples, |x: Sample| x.problem.op == '+', all);
            lemma_count_le(samples, |x: Sample| x.problem.op == '+' && x.correct(), all);
            lemma_count_le(samples, |x: Sample| x.problem.op != '+', all);
            lemma_count_le(samples, |x: Sample| x.problem.op != '+' && x.correct(), all);
            lemma_count_le(samples, |x: Sample| x.bucket() == bucket, all);
            lemma_count_le(samples, |x: Sample| x.bucket() == bucket && x.correct(), all);
            assert(self.by_digits@[bucket as int].1 <= samples.len());
        }
        self.total = self.total + 1;
        if correct {
            self.correct = self.correct + 1;
        }
        if problem.op == '+' {
            self.total_plus = self.total_plus + 1;
            if correct {
                self.correct_plus = self.correct_plus + 1;
            }
        } else {
            self.total_minus = self.total_minus + 1;
            if correct {
                self.correct_minus = self.correct_minus + 1;
            }
        }
        let cell: (usize, usize) = self.by_digits[bucket];
        let right: usize = if correct {
            cell.0 + 1
        } else {
            cell.0
        };
        self.by_digits[bucket] = (right, cell.1 + 1);
        if self.examples.len() < MAX_EXAMPLES {
            self.examples.push(
                EvalExample {
                    prompt: problem.prompt(),
                    generated: generated.to_owned(),
                    true_answer,
                    correct,
                },
            );
        }
        proof {
            assert forall|k: int| 0 <= k < 4 implies (#[trigger] self.by_digits@[k]).0 == count(
                more,
                |x: Sample| x.bucket() == k && x.correct(),
            ) && self.by_digits@[k].1 == count(more, |x: Sample| x.bucket() == k) by {
                lemma_count_push(samples, x, |x: Sample| x.bucket() == k && x.correct());
                lemma_count_push(samples, x, |x: Sample| x.bucket() == k);
                assert(old(self).by_digits@[k].0 == count(
                    samples,
                    |x: Sample| x.bucket() == k && x.correct(),
                ));
            }
            assert forall|k: int| 0 <= k < self.examples@.len() implies (
            #[trigger] self.examples@[k]).shows(more[k]) by {
                if k < old(self).examples@.len() {
                    assert(self.examples@[k] == old(self).examples@[k]);
                    assert(old(self).examples@[k].shows(samples[k]));
                }
            }
        }
    }
}

impl Default for EvalReport {
    /// The report of no samples.
    fn default() -> (r: Self)
        ensures
            r.tallies(Seq::empty()),
    {
        EvalReport {
            total: 0,
            correct: 0,
            correct_plus: 0,
            total_plus: 0,
            correct_minus: 0,
            total_minus: 0,
            by_digits: [(0, 0), (0, 0), (0, 0), (0, 0)],
            examples: Vec::new(),
        }
    }
}

/// The first `n` problems that a generator in state `state` draws, and the
/// state after them.
pub open spec fn problems_from(
    state: Seq<u32>,
    min: i64,
    max: i64,
    ops: Seq<char>,
    n: nat,
) -> (Seq<Problem>, Seq<u32>)
    decreases n,
{
    if n == 0 {
        (seq![], state)
    } else {
        let before = problems_from(state, min, max, ops, (n - 1) as nat);
        let next = drawn_problem(before.1, min, max, ops);
        (before.0.push(next.0), next.1)
    }
}

/// Whether a list holds only `+` and `-`.
pub open spec fn only_operators(ops: Seq<char>) -> bool {
    forall|i: int| 0 <= i < ops.len() ==> (#[trigger] ops[i] == '+' || ops[i] == '-')
}

/// The problems of `samples`.
pub open spec fn problems_of(samples: Seq<Sample>) -> Seq<Problem> {
    samples.map_values(|x: Sample| x.problem)
}

/// The message for an empty operand range.
pub open spec fn eval_range_message(min: int, max: int) -> Seq<char> {
    "--eval-min ("@ + signed_decimal(min) + ") must be <= --eval-max ("@ + signed_decimal(max)
        + ")"@
}

/// The message for a tokenizer that does not encode a newline.
pub open spec fn eval_newline_message() -> Seq<char> {
    "Tokenizer produced no encoding for '\\n'"@
}

/// Why an evaluation cannot start, if it cannot: an empty range, then a
/// missing newline token, then a bad operator list.
pub open spec fn eval_start_error(
    min: int,
    max: int,
    newline: Option<u32>,
    ops: Seq<char>,
) -> Option<ErrorView> {
    if min > max {
        Some(ErrorView::InvalidArgument(eval_range_message(min, max)))
    } else if newline is None {
        Some(ErrorView::InvalidArgument(eval_newline_message()))
    } else {
        match parsed_ops(ops) {
            Ok(_) => None,
            Err(m) => Some(ErrorView::InvalidArgument(m)),
        }
    }
}

/// An evaluation in progress. The problems come out one by one; the completion
/// of each is handed back before the next one is drawn.
pub struct EvalRun {
    pub n_samples: usize,
    pub min: i64,
    pub max: i64,
    pub ops: Vec<char>,
    pub newline_token: u32,
    pub rng: StdRng,
    pub current: Option<Problem>,
    pub report: EvalReport,
    /// The state of the generator at the start.
    pub first_state: Ghost<Seq<u32>>,
    /// What was judged so far.
    pub samples: Ghost<Seq<Sample>>,
}

impl EvalRun {
    /// The problems that were handed out so far.
    pub open spec fn problems(&self) -> Seq<Problem> {
        match self.current {
            Some(p) => problems_of(self.samples@).push(p),
            None => problems_of(self.samples@),
        }
    }

    /// The report tallies what was judged, and the problems are those that the
    /// generator draws one after the other, with operands in the range and an
    /// operator of the list.
    pub open spec fn well_formed(&self) -> bool {
        &&& self.min <= self.max
        &&& self.ops@.len() > 0
        &&& self.n_samples > 0 ==> answers_fit(self.min as int, self.max as int, self.ops@)
        &&& self.report.tallies(self.samples@)
        &&& self.problems().len() <= self.n_samples
        &&& (self.problems(), rng_state(self.rng)) == problems_from(
            self.first_state@,
            self.min,
            self.max,
            self.ops@,
            self.problems().len(),
        )
        &&& self.current matches Some(p) ==> p.fits()
        &&& only_operators(self.ops@)
        &&& forall|i: int|
            0 <= i < self.problems().len() ==> (#[trigger] self.problems()[i]).drawn_from(
                self.min as int,
                self.max as int,
                self.ops@,
            )
    }

    /// Whether two runs have the same parameters.
    pub open spec fn same_setup(&self, other: &EvalRun) -> bool {
        &&& self.n_samples == other.n_samples
        &&& self.min == other.min
        &&& self.max == other.max
        &&& self.ops == other.ops
        &&& self.newline_token == other.newline_token
        &&& self.first_state == other.first_state
    }

    /// Starts an evaluation of `n_samples` problems. `newline` is the token
    /// that encodes a newline, if there is one.
    pub fn start(
        n_samples: usize,
        min: i64,
        max: i64,
        newline: Option<u32>,
        seed: Option<u64>,
        ops: &str,
    ) -> (r: SmolResult<EvalRun>)
        requires
            eval_start_error(min as int, max as int, newline, ops@) is None && n_samples > 0
                ==> answers_fit(min as int, max as int, parsed_ops(ops@)->Ok_0),
        ensures
            match eval_start_error(min as int, max as int, newline, ops@) {
                Some(e) => fails_with(r, e),
                None => r is Ok,
            },
            r matches Ok(run) ==> {
                &&& run.well_formed()
                &&& run.n_samples == n_samples
                &&& run.min == min
                &&& run.max == max
                &&& parsed_ops(ops@) == Ok::<Seq<char>, Seq<char>>(run.ops@)
                &&& Some(run.newline_token) == newline
                &&& run.current is None
                &&& run.samples@ == Seq::<Sample>::empty()
                &&& seed matches Some(s) ==> run.first_state@ == seeded_state(s)
            },
    {
        if min > max {
            let mut m: String = "--eval-min (".to_owned();
            push_signed(&mut m, min);
            m.append(") must be <= --eval-max (");
            push_signed(&mut m, max);
            m.append(")");
            return Err(SmolError::InvalidArgument(m));
        }
        let newline_token: u32 = match newline {
            Some(t) => t,
            None => {
                return Err(
                    SmolError::invalid_argument("Tokenizer produced no encoding for '\\n'"),
                );
            },
        };
        let rng: StdRng = rng_for(seed);
        let ops_list: Vec<char> = match parse_ops(ops) {
            Ok(l) => l,
            Err(e) => {
                return Err(e);
            },
        };
        let run: EvalRun = EvalRun {
            n_samples,
            min,
            max,
            ops: ops_list,
            newline_token,
            rng,
            current: None,
            report: EvalReport::default(),
            first_state: Ghost(rng_state(rng)),
            samples: Ghost(Seq::empty()),
        };
        proof {
            assert(run.problems() =~= Seq::<Problem>::empty());
        }
        Ok(run)
    }

    /// Draws the next problem, or `None` when all were drawn.
    pub fn next_problem(&mut self) -> (r: Option<Problem>)
        requires
            old(self).well_formed(),
            old(self).current is None,
        ensures
            final(self).well_formed(),
            final(self).same_setup(old(self)),
            final(self).samples == old(self).samples,
            final(self).report == old(self).report,
            final(self).current == r,
            match r {
                None => old(self).samples@.len() == old(self).n_samples,
                Some(p) => old(self).samples@.len() < old(self).n_samples && (
                    p,
                    rng_state(final(self).rng),
                ) == drawn_problem(
                    rng_state(old(self).rng),
                    old(self).min,
                    old(self).max,
                    old(self).ops@,
                ),
            },
    {
        if self.report.total == self.n_samples {
            return None;
        }
        let p: Problem = draw_problem(&mut self.rng, self.min, self.max, &self.ops);
        self.current = Some(p);
        proof {
            assert forall|i: int| 0 <= i < self.problems().len() implies (
            #[trigger] self.problems()[i]).drawn_from(self.min as int, self.max as int, self.ops@) by {
                if i < old(self).problems().len() {
                    assert(self.problems()[i] == old(self).problems()[i]);
                }
            }
        }
        Some(p)
    }

    /// Takes the completion of the problem that was drawn last.
    pub fn submit(&mut self, generated: &str)
        requires
            old(self).well_formed(),
            old(self).current is Some,
        ensures
            final(self).well_formed(),
            final(self).same_setup(old(self)),
            final(self).current is None,
            final(self).rng == old(self).rng,
            final(self).samples@ == old(self).samples@.push(
                Sample { problem: old(self).current->0, generated: generated@ },
            ),
    {
        if let Some(p) = self.current {
            self.report.record(p, generated, Ghost(self.samples@));
            self.current = None;
            proof {
                let x = Sample { problem: p, generated: generated@ };
                self.samples@ = self.samples@.push(x);
                assert(problems_of(self.samples@) =~= problems_of(old(self).samples@).push(p));
            }
        }
    }

    /// The report of a run that has judged all its problems.
    pub fn finish(self) -> (r: EvalReport)
        requires
            self.well_formed(),
            self.samples@.len() == self.n_samples,
        ensures
            r.tallies(self.samples@),
            problems_of(self.samples@) == problems_from(
                self.first_state@,
                self.min,
                self.max,
                self.ops@,
                self.n_samples as nat,
            ).0,
            forall|i: int|
                0 <= i < self.samples@.len() ==> (
                #[trigger] self.samples@[i]).problem.drawn_from(
                    self.min as int,
                    self.max as int,
                    self.ops@,
                ),
            !self.ops@.contains('-') ==> r.total_minus == 0,
            !self.ops@.contains('+') ==> r.total_plus == 0,
    {
        proof {
            assert forall|i: int| 0 <= i < self.samples@.len() implies (
            #[trigger] self.samples@[i]).problem.drawn_from(
                self.min as int,
                self.max as int,
                self.ops@,
            ) by {
                assert(self.problems()[i] == self.samples@[i].problem);
            }
            if !self.ops@.contains('-') {
                lemma_count_none(self.samples@, |x: Sample| x.problem.op != '+');
            }
            if !self.ops@.contains('+') {
                lemma_count_none(self.samples@, |x: Sample| x.problem.op == '+');
            }
        }
        self.report
    }
}

/// The buckets of `samples` together hold every sample once.
proof fn lemma_buckets_sum(samples: Seq<Sample>, extra: spec_fn(Sample) -> bool)
    ensures
        count(samples, |x: Sample| x.bucket() == 0 && extra(x)) + count(
            samples,
            |x: Sample| x.bucket() == 1 && extra(x),
        ) + count(samples, |x: Sample| x.bucket() == 2 && extra(x)) + count(
            samples,
            |x: Sample| x.bucket() == 3 && extra(x),
        ) == count(samples, extra),
    decreases samples.len(),
{
    if samples.len() > 0 {
        lemma_buckets_sum(samples.drop_last(), extra);
        crate::number::lemma_decimal(
            (if samples.last().problem.answer() < 0 {
                -samples.last().problem.answer()
            } else {
                samples.last().problem.answer()
            }) as nat,
        );
    }
}

proof fn lemma_count_same(
    samples: Seq<Sample>,
    f: spec_fn(Sample) -> bool,
    g: spec_fn(Sample) -> bool,
)
    requires
        forall|x: Sample| #[trigger] f(x) <==> g(x),
    ensures
        count(samples, f) == count(samples, g),
    decreases samples.len(),
{
    if samples.len() > 0 {
        lemma_count_same(samples.drop_last(), f, g);
        assert(f(samples.last()) <==> g(samples.last()));
    }
}

proof fn lemma_operators_sum(samples: Seq<Sample>)
    ensures
        count(samples, |x: Sample| x.problem.op == '+') + count(
            samples,
            |x: Sample| x.problem.op != '+',
        ) == samples.len(),
        count(samples, |x: Sample| x.problem.op == '+' && x.correct()) + count(
            samples,
            |x: Sample| x.problem.op != '+' && x.correct(),
        ) == count(samples, |x: Sample| x.correct()),
    decreases samples.len(),
{
    if samples.len() > 0 {
        lemma_operators_sum(samples.drop_last());
    }
}

/// The tallies of a report agree: the operators share the samples between
/// them, so do the digit buckets, and no tally counts more right answers than
/// answers.
pub proof fn law_report_adds_up(r: EvalReport, samples: Seq<Sample>)
    requires
        r.tallies(samples),
    ensures
        r.total_plus + r.total_minus == r.total,
        r.correct_plus + r.correct_minus == r.correct,
        r.by_digits@[0].1 + r.by_digits@[1].1 + r.by_digits@[2].1 + r.by_digits@[3].1 == r.total,
        r.by_digits@[0].0 + r.by_digits@[1].0 + r.by_digits@[2].0 + r.by_digits@[3].0 == r.correct,
        r.correct <= r.total,
        r.correct_plus <= r.total_plus,
        r.correct_minus <= r.total_minus,
        forall|k: int| 0 <= k < 4 ==> (#[trigger] r.by_digits@[k]).0 <= r.by_digits@[k].1,
{
    lemma_operators_sum(samples);
    let all = |x: Sample| true;
    let right = |x: Sample| x.correct();
    lemma_buckets_sum(samples, all);
    lemma_buckets_sum(samples, right);
    lemma_count_le(samples, right, all);
    lemma_count_le(
        samples,
        |x: Sample| x.problem.op == '+' && x.correct(),
        |x: Sample| x.problem.op == '+',
    );
    lemma_count_le(
        samples,
        |x: Sample| x.problem.op != '+' && x.correct(),
        |x: Sample| x.problem.op != '+',
    );
    assert(count(samples, all) == samples.len()) by {
        lemma_count_all(samples);
    }
    assert forall|k: int| 0 <= k < 4 implies (#[trigger] r.by_digits@[k]).0 <= r.by_digits@[k].1
        && count(samples, |x: Sample| x.bucket() == k && all(x)) == r.by_digits@[k].1 && count(
        samples,
        |x: Sample| x.bucket() == k && right(x),
    ) == r.by_digits@[k].0 by {
        lemma_count_le(
            samples,
            |x: Sample| x.bucket() == k && x.correct(),
            |x: Sample| x.bucket() == k,
        );
        lemma_count_same(
            samples,
            |x: Sample| x.bucket() == k && all(x),
            |x: Sample| x.bucket() == k,
        );
        lemma_count_same(
            samples,
            |x: Sample| x.bucket() == k && right(x),
            |x: Sample| x.bucket() == k && x.correct(),
        );
    }
    let d0 = r.by_digits@[0];
    let d1 = r.by_digits@[1];
    let d2 = r.by_digits@[2];
    let d3 = r.by_digits@[3];
}

proof fn lemma_count_all(samples: Seq<Sample>)
    ensures
        count(samples, |x: Sample| true) == samples.len(),
    decreases samples.len(),
{
    if samples.len() > 0 {
        lemma_count_all(samples.drop_last());
    }
}

proof fn lemma_count_none(samples: Seq<Sample>, which: spec_fn(Sample) -> bool)
    requires
        forall|i: int| 0 <= i < samples.len() ==> !which(#[trigger] samples[i]),
    ensures
        count(samples, which) == 0,
    decreases samples.len(),
{
    if samples.len() > 0 {
        let rest = samples.drop_last();
        assert forall|i: int| 0 <= i < rest.len() implies !which(#[trigger] rest[i]) by {
            assert(rest[i] == samples[i]);
        }
        lemma_count_none(rest, which);
        assert(!which(samples[samples.len() - 1]));
    }
}

/// One more sample counts one more in all, one more for its operator and one
/// more for the number of digits of its true answer; and once more for each where
/// the leading integer of its completion is the true answer. No samples count
/// nothing.
pub proof fn law_each_sample_counts_once(
    r: EvalReport,
    more: EvalReport,
    samples: Seq<Sample>,
    x: Sample,
    k: int,
)
    requires
        r.tallies(samples),
        more.tallies(samples.push(x)),
        0 <= k < 4,
    ensures
        ({
            let right: int = if leading_int(x.generated) == Some(x.problem.answer()) {
                1
            } else {
                0
            };
            let plus: int = if x.problem.op == '+' {
                1
            } else {
                0
            };
            let here: int = if digit_bucket(x.problem.answer()) == k {
                1
            } else {
                0
            };
            &&& more.total == r.total + 1
            &&& more.correct == r.correct + right
            &&& more.total_plus == r.total_plus + plus
            &&& more.correct_plus == r.correct_plus + right * plus
            &&& more.total_minus == r.total_minus + (1 - plus)
            &&& more.correct_minus == r.correct_minus + right * (1 - plus)
            &&& more.by_digits@[k].1 == r.by_digits@[k].1 + here
            &&& more.by_digits@[k].0 == r.by_digits@[k].0 + right * here
        }),
        samples.len() == 0 ==> r.total == 0 && r.correct == 0 && r.total_plus == 0
            && r.correct_plus == 0 && r.total_minus == 0 && r.correct_minus == 0
            && r.by_digits@[k] == (0usize, 0usize),
        more.examples@.len() == if samples.len() + 1 < 10 {
            samples.len() + 1
        } else {
            10
        },
        samples.len() < 10 ==> {
            let e = more.examples@[samples.len() as int];
            &&& e.prompt@ == x.problem.prompt_text()
            &&& e.generated@ == x.generated
            &&& e.true_answer == x.problem.answer()
            &&& e.correct <==> leading_int(x.generated) == Some(x.problem.answer())
        },
{
    lemma_count_push(samples, x, |x: Sample| x.correct());
    lemma_count_push(samples, x, |x: Sample| x.problem.op == '+');
    lemma_count_push(samples, x, |x: Sample| x.problem.op == '+' && x.correct());
    lemma_count_push(samples, x, |x: Sample| x.problem.op != '+');
    lemma_count_push(samples, x, |x: Sample| x.problem.op != '+' && x.correct());
    lemma_count_push(samples, x, |x: Sample| x.bucket() == k && x.correct());
    lemma_count_push(samples, x, |x: Sample| x.bucket() == k);
    let a = r.by_digits@[k];
    let b = more.by_digits@[k];
    if samples.len() < 10 {
        let i = samples.len() as int;
        assert(more.examples@[i].shows(samples.push(x)[i]));
    }
}

/// The problems of a run are drawn one after the other: so many and then so many
/// more are as many at once. One problem is two operands of the range and then
/// an operator by its place in the list.
pub proof fn law_problems_are_drawn_in_turn(
    state: Seq<u32>,
    min: i64,
    max: i64,
    ops: Seq<char>,
    n: nat,
    m: nat,
)
    ensures
        ({
            let first = problems_from(state, min, max, ops, n);
            let second = problems_from(first.1, min, max, ops, m);
            &&& first.0.len() == n
            &&& problems_from(state, min, max, ops, n + m) == (first.0 + second.0, second.1)
            &&& problems_from(state, min, max, ops, 0).1 == state
        }),
        ({
            let a = drawn_between(state, min, max);
            let b = drawn_between(a.1, min, max);
            let k = drawn_below(b.1, ops.len() as usize);
            let one = problems_from(state, min, max, ops, 1);
            &&& one.0[0].a == a.0
            &&& one.0[0].b == b.0
            &&& one.0[0].op == ops[k.0 as int]
            &&& one.1 == k.1
        }),
    decreases m,
{
    reveal_with_fuel(problems_from, 2);
    lemma_problems_len(state, min, max, ops, n);
    let first = problems_from(state, min, max, ops, n);
    if m == 0 {
        assert(first.0 + problems_from(first.1, min, max, ops, 0).0 =~= first.0);
    } else {
        law_problems_are_drawn_in_turn(state, min, max, ops, n, (m - 1) as nat);
        assert((n + m - 1) as nat == n + (m - 1) as nat);
        let second = problems_from(first.1, min, max, ops, (m - 1) as nat);
        let last = drawn_problem(second.1, min, max, ops);
        assert((first.0 + second.0).push(last.0) =~= first.0 + second.0.push(last.0));
    }
}

proof fn lemma_problems_len(state: Seq<u32>, min: i64, max: i64, ops: Seq<char>, n: nat)
    ensures
        problems_from(state, min, max, ops, n).0.len() == n,
    decreases n,
{
    if n > 0 {
        lemma_problems_len(state, min, max, ops, (n - 1) as nat);
    }
}

/// Every worked example of a report shows a problem of the run: its operands
/// lie in the range, its operator is one of the list, and it is right exactly
/// when the leading integer of the completion is the true answer.
pub proof fn law_examples_are_problems_of_the_run(run: EvalRun, r: EvalReport, k: int)
    requires
        run.well_formed(),
        r.tallies(run.samples@),
        0 <= k < r.examples@.len(),
    ensures
        exists|p: Problem|
            #![trigger p.prompt_text()]
            p.drawn_from(run.min as int, run.max as int, run.ops@) && r.examples@[k].prompt@
                == p.prompt_text() && r.examples@[k].true_answer == p.answer(),
        r.examples@[k].correct <==> leading_int(r.examples@[k].generated@) == Some(
            r.examples@[k].true_answer as int,
        ),
{
    let x = run.samples@[k];
    assert(r.examples@[k].shows(x));
    assert(run.problems()[k] == x.problem);
    let p = x.problem;
    assert(p.drawn_from(run.min as int, run.max as int, run.ops@));
    assert(r.examples@[k].prompt@ == p.prompt_text());
}

/// Two complete runs over as many problems of the same range and operators,
/// from the same state of the generator and with one rule from prompt to
/// completion, judge the same samples and so give the same tallies.
pub proof fn law_seeded_evaluation_is_reproducible(
    a: EvalRun,
    b: EvalRun,
    r: EvalReport,
    s: EvalReport,
    complete: spec_fn(Seq<char>) -> Seq<char>,
)
    requires
        a.well_formed() && b.well_formed(),
        a.n_samples == b.n_samples,
        a.min == b.min && a.max == b.max && a.ops@ == b.ops@,
        a.first_state@ == b.first_state@,
        a.samples@.len() == a.n_samples,
        b.samples@.len() == b.n_samples,
        forall|i: int|
            0 <= i < a.samples@.len() ==> (#[trigger] a.samples@[i]).generated == complete(
                a.samples@[i].problem.prompt_text(),
            ),
        forall|i: int|
            0 <= i < b.samples@.len() ==> (#[trigger] b.samples@[i]).generated == complete(
                b.samples@[i].problem.prompt_text(),
            ),
        r.tallies(a.samples@),
        s.tallies(b.samples@),
    ensures
        a.samples@ == b.samples@,
        r.total == s.total,
        r.correct == s.correct,
        r.correct_plus == s.correct_plus,
        r.total_plus == s.total_plus,
        r.correct_minus == s.correct_minus,
        r.total_minus == s.total_minus,
        r.by_digits@ == s.by_digits@,
        r.examples@.len() == s.examples@.len(),
        forall|k: int|
            0 <= k < r.examples@.len() ==> (#[trigger] r.examples@[k]).prompt@
                == s.examples@[k].prompt@ && r.examples@[k].generated@ == s.examples@[k].generated@
                && r.examples@[k].true_answer == s.examples@[k].true_answer && r.examples@[k].correct
                == s.examples@[k].correct,
{
    assert(a.current is None && b.current is None);
    assert(a.problems() == b.problems());
    assert forall|i: int| 0 <= i < a.samples@.len() implies #[trigger] a.samples@[i]
        == b.samples@[i] by {
        assert(a.problems()[i] == a.samples@[i].problem);
        assert(b.problems()[i] == b.samples@[i].problem);
    }
    assert(a.samples@ =~= b.samples@);
    law_report_is_reproducible(r, s, a.samples@);
}

/// The same problems and the same completions give the same tallies.
pub proof fn law_report_is_reproducible(r: EvalReport, s: EvalReport, samples: Seq<Sample>)
    requires
        r.tallies(samples),
        s.tallies(samples),
    ensures
        r.total == s.total,
        r.correct == s.correct,
        r.correct_plus == s.correct_plus,
        r.total_plus == s.total_plus,
        r.correct_minus == s.correct_minus,
        r.total_minus == s.total_minus,
        r.by_digits@ == s.by_digits@,
        r.examples@.len() == s.examples@.len(),
        forall|k: int|
            0 <= k < r.examples@.len() ==> (#[trigger] r.examples@[k]).prompt@
                == s.examples@[k].prompt@ && r.examples@[k].generated@ == s.examples@[k].generated@
                && r.examples@[k].true_answer == s.examples@[k].true_answer && r.examples@[k].correct
                == s.examples@[k].correct,
{
    assert forall|k: int| 0 <= k < 4 implies #[trigger] r.by_digits@[k] == s.by_digits@[k] by {
        assert(s.by_digits@[k].0 == count(samples, |x: Sample| x.bucket() == k && x.correct()));
    }
    assert(r.by_digits@ =~= s.by_digits@);
    assert forall|k: int| 0 <= k < r.examples@.len() implies (#[trigger] r.examples@[k]).prompt@
        == s.examples@[k].prompt@ && r.examples@[k].generated@ == s.examples@[k].generated@
        && r.examples@[k].true_answer == s.examples@[k].true_answer && r.examples@[k].correct
        == s.examples@[k].correct by {
        assert(s.examples@[k].shows(samples[k]));
    }
}

/// A line `label c/t`.
pub open spec fn tally_line(label: Seq<char>, c: int, t: int) -> Seq<char> {
    label + decimal(c as nat) + "/"@ + decimal(t as nat) + "\n"@
}

impl EvalExample {
    /// The line that shows the example: its completion up to the first newline.
    pub open spec fn line(&self) -> Seq<char> {
        (if self.correct {
            "  [ok] "@
        } else {
            "  [FAIL] "@
        }) + self.prompt@ + self.generated@.take(before(self.generated@, '\n')) + " (true: "@
            + signed_decimal(self.true_answer as int) + ")\n"@
    }
}

/// The lines that show `examples`.
pub open spec fn example_lines(examples: Seq<EvalExample>) -> Seq<char>
    decreases examples.len(),
{
    if examples.len() == 0 {
        seq![]
    } else {
        example_lines(examples.drop_last()) + examples.last().line()
    }
}

/// The text of a report, where `pct` is the share of right answers in percent.
pub open spec fn report_text(r: EvalReport, pct: Seq<char>) -> Seq<char> {
    "Eval: "@ + decimal(r.correct as nat) + "/"@ + decimal(r.total as nat) + " = "@ + pct + "%\n"@
        + tally_line("  + : "@, r.correct_plus as int, r.total_plus as int) + tally_line(
        "  - : "@,
        r.correct_minus as int,
        r.total_minus as int,
    ) + tally_line(
        "  1-digit answer : "@,
        r.by_digits@[0].0 as int,
        r.by_digits@[0].1 as int,
    ) + tally_line(
        "  2-digit answer : "@,
        r.by_digits@[1].0 as int,
        r.by_digits@[1].1 as int,
    ) + tally_line(
        "  3-digit answer : "@,
        r.by_digits@[2].0 as int,
        r.by_digits@[2].1 as int,
    ) + tally_line(
        "  4+-digit answer: "@,
        r.by_digits@[3].0 as int,
        r.by_digits@[3].1 as int,
    ) + if r.examples@.len() == 0 {
        seq![]
    } else {
        "\nExamples:\n"@ + example_lines(r.examples@)
    }
}

fn push_tally(out: &mut String, label: &str, c: usize, t: usize)
    ensures
        final(out)@ == old(out)@ + tally_line(label@, c as int, t as int),
{
    out.append(label);
    push_decimal(out, c as u64);
    out.append("/");
    push_decimal(out, t as u64);
    out.append("\n");
    assert(out@ =~= old(out)@ + tally_line(label@, c as int, t as int));
}

fn push_example(out: &mut String, ex: &EvalExample)
    ensures
        final(out)@ == old(out)@ + ex.line(),
{
    if ex.correct {
        out.append("  [ok] ");
    } else {
        out.append("  [FAIL] ");
    }
    out.append(ex.prompt.as_str());
    let g: Vec<char> = chars_of(ex.generated.as_str());
    let end: usize = find_char(&g, 0, '\n');
    let shown: Vec<char> = copy_part(&g, 0, end);
    proof {
        assert(g@.skip(0) =~= g@);
        assert(shown@ =~= ex.generated@.take(before(ex.generated@, '\n')));
    }
    let t: String = text_of(&shown);
    out.append(t.as_str());
    out.append(" (true: ");
    push_signed(out, ex.true_answer);
    out.append(")\n");
    assert(out@ =~= old(out)@ + ex.line());
}

/// The text of a report, where `pct` is the share of right answers in percent.
pub fn print_report(report: &EvalReport, pct: &str) -> (r: String)
    ensures
        r@ == report_text(*report, pct@),
{
    let mut out: String = "Eval: ".to_owned();
    push_decimal(&mut out, report.correct as u64);
    out.append("/");
    push_decimal(&mut out, report.total as u64);
    out.append(" = ");
    out.append(pct);
    out.append("%\n");
    push_tally(&mut out, "  + : ", report.correct_plus, report.total_plus);
    push_tally(&mut out, "  - : ", report.correct_minus, report.total_minus);
    push_tally(&mut out, "  1-digit answer : ", report.by_digits[0].0, report.by_digits[0].1);
    push_tally(&mut out, "  2-digit answer : ", report.by_digits[1].0, report.by_digits[1].1);
    push_tally(&mut out, "  3-digit answer : ", report.by_digits[2].0, report.by_digits[2].1);
    push_tally(&mut out, "  4+-digit answer: ", report.by_digits[3].0, report.by_digits[3].1);
    let ghost head = out@;
    if report.examples.len() == 0 {
        assert(out@ =~= report_text(*report, pct@));
        return out;
    }
    out.append("\nExamples:\n");
    let mut i: usize = 0;
    while i < report.examples.len()
        invariant
            i <= report.examples.len(),
            out@ == head + ("\nExamples:\n"@ + example_lines(report.examples@.take(i as int))),
        decreases report.examples.len() - i,
    {
        let ghost before_push = out@;
        push_example(&mut out, &report.examples[i]);
        proof {
            assert(report.examples@.take(i + 1).drop_last() =~= report.examples@.take(i as int));
            assert(out@ =~= head + ("\nExamples:\n"@ + example_lines(
                report.examples@.take(i + 1),
            )));
        }
        i += 1;
    }
    proof {
        assert(report.examples@.take(i as int) =~= report.examples@);
    }
    out
}

/// An evaluation starts where its range is not empty, a newline has a token and
/// the operator list can be read, and is told of the first thing that is missing.
pub proof fn law_what_stops_an_evaluation(
    min: int,
    max: int,
    newline: Option<u32>,
    ops: Seq<char>,
)
    ensures
        eval_start_error(min, max, newline, ops) is None <==> min <= max && newline is Some
            && parsed_ops(ops) is Ok,
        min > max ==> eval_start_error(min, max, newline, ops) == Some(
            ErrorView::InvalidArgument(
                "--eval-min ("@ + signed_decimal(min) + ") must be <= --eval-max ("@
                    + signed_decimal(max) + ")"@,
            ),
        ),
        min <= max && newline is None ==> eval_start_error(min, max, newline, ops) == Some(
            ErrorView::InvalidArgument("Tokenizer produced no encoding for '\\n'"@),
        ),
        min <= max && newline is Some ==> (parsed_ops(ops) matches Err(m) ==> eval_start_error(
            min,
            max,
            newline,
            ops,
        ) == Some(ErrorView::InvalidArgument(m))),
{
}

/// The lines of the examples follow each other.
pub proof fn law_example_lines_follow_each_other(examples: Seq<EvalExample>, e: EvalExample)
    ensures
        example_lines(Seq::empty()) == Seq::<char>::empty(),
        example_lines(examples.push(e)) == example_lines(examples) + e.line(),
{
    assert(examples.push(e).drop_last() =~= examples);
}

} // verus!
