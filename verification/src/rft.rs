//! Rejection-sampling fine-tuning: in each round completions are sampled, the
//! clean right answers are kept, the model is trained on them and evaluated.
//!
//! A run decides; sampling, training and evaluating happen outside. The phases
//! of a round follow each other: sampling, training (unless nothing was won),
//! evaluating.
use crate::error::fails_with;
use crate::error::ErrorView;
use crate::error::SmolError;
use crate::error::SmolResult;
use crate::list::copy_list;
use crate::list::Ratio;
use crate::number::push_signed;
use crate::number::signed_decimal;
use crate::problem::answers_fit;
use crate::problem::clean_answer;
use crate::problem::draw_problem;
use crate::problem::drawn_problem;
use crate::problem::is_clean_answer;
use crate::problem::parse_ops;
use crate::problem::parsed_ops;
use crate::problem::Problem;
use crate::rng::rng_for;
use crate::rng::rng_state;
use crate::rng::seeded_state;
use crate::text::texts;
use rand::rngs::StdRng;
use vstd::prelude::*;
use vstd::string::*;

verus! {

/// What sets the seed of the training batches apart from that of the prompts.
pub const DATASET_SEED_OFFSET: u64 = 0x9e37_79b9_7f4a_7c15;

/// The trajectory of a run. The lists run in parallel, one entry per round.
/// A round that won nothing has no training loss. A loss is held by the bits
/// of its 32-bit floating-point form.
#[derive(Debug, Clone)]
pub struct RftSummary {
    pub rounds: usize,
    pub winner_counts: Vec<usize>,
    pub winner_rates: Vec<Ratio>,
    pub eval_correct_pct: Vec<Ratio>,
    pub per_round_sft_final_losses: Vec<Option<u32>>,
}

impl RftSummary {
    /// One entry per round in each list; a round won at most as many prompts as
    /// it had, and was trained exactly when it won something.
    pub open spec fn well_formed(&self, prompts: int) -> bool {
        &&& self.winner_counts@.len() == self.rounds
        &&& self.winner_rates@.len() == self.rounds
        &&& self.eval_correct_pct@.len() == self.rounds
        &&& self.per_round_sft_final_losses@.len() == self.rounds
        &&& forall|i: int|
            0 <= i < self.rounds ==> (#[trigger] self.winner_rates@[i]) == (Ratio {
                part: self.winner_counts@[i],
                whole: prompts as usize,
            })
        &&& forall|i: int|
            0 <= i < self.rounds ==> (#[trigger] self.winner_counts@[i]) <= prompts
        &&& forall|i: int|
            0 <= i < self.rounds ==> ((#[trigger] self.per_round_sft_final_losses@[i]) is None
                <==> self.winner_counts@[i] == 0)
    }
}

/// The seed of a round.
pub open spec fn round_seed(seed: Option<u64>, round: int, offset: u64) -> Option<u64> {
    match seed {
        Some(s) => Some(s.wrapping_add(round as u64).wrapping_add(offset)),
        None => None,
    }
}

/// The seed of a round: the seed of the run, the number of the round and an
/// offset for the purpose, added up with wrap-around.
pub fn seed_for_round(seed: Option<u64>, round: usize, offset: u64) -> (r: Option<u64>)
    ensures
        r == round_seed(seed, round as int, offset),
{
    match seed {
        Some(s) => Some(s.wrapping_add(round as u64).wrapping_add(offset)),
        None => None,
    }
}

/// Where a run stands.
#[derive(Debug, Clone, Copy, PartialEq, Eq, Structural)]
pub enum RftPhase {
    Sampling,
    Training,
    Evaluating,
    Done,
}

/// A problem and the completions that were sampled for it, in order.
pub struct Attempt {
    pub problem: Problem,
    pub completions: Seq<Seq<char>>,
}

impl Attempt {
    /// Whether a completion was a clean right answer.
    pub open spec fn won(&self) -> bool {
        exists|i: int|
            0 <= i < self.completions.len() && clean_answer(
                #[trigger] self.completions[i],
                self.problem.answer(),
            )
    }

    /// At most `limit` completions were sampled, and none after a clean right
    /// answer.
    pub open spec fn well_formed(&self, limit: int) -> bool {
        &&& self.completions.len() <= limit
        &&& self.problem.fits()
        &&& forall|i: int|
            0 <= i < self.completions.len() - 1 ==> !clean_answer(
                #[trigger] self.completions[i],
                self.problem.answer(),
            )
    }

    /// The attempt is over: won, or all its samples were taken.
    pub open spec fn finished(&self, limit: int) -> bool {
        self.won() || self.completions.len() == limit
    }
}

/// The right lines of the attempts that were won, in order.
pub open spec fn won_lines(attempts: Seq<Attempt>) -> Seq<Seq<char>>
    decreases attempts.len(),
{
    if attempts.len() == 0 {
        seq![]
    } else {
        let rest = won_lines(attempts.drop_last());
        if attempts.last().won() {
            rest.push(attempts.last().problem.fact_text())
        } else {
            rest
        }
    }
}

proof fn lemma_won_lines_len(attempts: Seq<Attempt>)
    ensures
        won_lines(attempts).len() <= attempts.len(),
    decreases attempts.len(),
{
    if attempts.len() > 0 {
        lemma_won_lines_len(attempts.drop_last());
    }
}

/// Every line that is trained on is the right line of a problem that was
/// answered.
pub proof fn law_won_lines_are_facts(attempts: Seq<Attempt>, i: int)
    requires
        0 <= i < won_lines(attempts).len(),
    ensures
        exists|k: int|
            0 <= k < attempts.len() && (#[trigger] attempts[k]).won() && won_lines(attempts)[i]
                == attempts[k].problem.fact_text(),
    decreases attempts.len(),
{
    let rest = attempts.drop_last();
    if i < won_lines(rest).len() {
        law_won_lines_are_facts(rest, i);
        let k = choose|k: int|
            0 <= k < rest.len() && (#[trigger] rest[k]).won() && won_lines(rest)[i]
                == rest[k].problem.fact_text();
        assert(attempts[k] == rest[k]);
    } else {
        assert(attempts[attempts.len() - 1].won());
    }
}

/// Each attempt adds its right line exactly where one of its completions was a
/// clean right answer, and nothing otherwise, in order.
pub proof fn law_winners_are_counted_once(attempts: Seq<Attempt>, a: Attempt)
    ensures
        won_lines(Seq::empty()) == Seq::<Seq<char>>::empty(),
        (exists|i: int|
            0 <= i < a.completions.len() && clean_answer(
                #[trigger] a.completions[i],
                a.problem.answer(),
            )) ==> won_lines(attempts.push(a)) == won_lines(attempts).push(a.problem.fact_text()),
        (forall|i: int|
            0 <= i < a.completions.len() ==> !clean_answer(
                #[trigger] a.completions[i],
                a.problem.answer(),
            )) ==> won_lines(attempts.push(a)) == won_lines(attempts),
{
    assert(attempts.push(a).drop_last() =~= attempts);
}

/// The text of a list is its parts one after the other.
pub proof fn law_joined_texts(a: Seq<Seq<char>>, b: Seq<Seq<char>>, t: Seq<char>)
    ensures
        joined(Seq::empty()) == Seq::<char>::empty(),
        joined(seq![t]) == t,
        joined(a + b) == joined(a) + joined(b),
    decreases b.len(),
{
    reveal_with_fuel(joined, 2);
    let one = seq![t];
    assert(one.drop_last() =~= Seq::<Seq<char>>::empty());
    assert(joined(one) =~= t);
    if b.len() == 0 {
        assert(a + b =~= a);
        assert(joined(a) + joined(b) =~= joined(a));
    } else {
        assert((a + b).drop_last() =~= a + b.drop_last());
        law_joined_texts(a, b.drop_last(), t);
        assert(joined(a + b) =~= joined(a) + joined(b));
    }
}

/// Copies of a list hold its entries over and over.
pub proof fn law_repeating_goes_round(s: Seq<u32>, n: nat, i: int)
    requires
        0 <= i < repeated(s, n).len(),
    ensures
        repeated(s, n).len() == n * s.len(),
        s.len() > 0,
        repeated(s, n)[i] == s[i % s.len() as int],
    decreases n,
{
    lemma_repeated_len(s, n);
    if n > 0 {
        let m = (n - 1) as nat;
        lemma_repeated_len(s, m);
        if s.len() == 0 {
            assert(n * s.len() == 0) by (nonlinear_arith)
                requires
                    s.len() == 0,
            ;
        }
        if i < repeated(s, m).len() {
            law_repeating_goes_round(s, m, i);
        } else {
            let k = i - repeated(s, m).len();
            assert(repeated(s, n)[i] == s[k]);
            assert(n * s.len() == m * s.len() + s.len()) by (nonlinear_arith)
                requires
                    n == m + 1,
            ;
            vstd::arithmetic::div_mod::lemma_fundamental_div_mod_converse(
                i,
                s.len() as int,
                m as int,
                k,
            );
        }
    }
}

proof fn lemma_repeated_len(s: Seq<u32>, n: nat)
    ensures
        repeated(s, n).len() == n * s.len(),
    decreases n,
{
    if n > 0 {
        lemma_repeated_len(s, (n - 1) as nat);
        assert(n * s.len() == (n - 1) * s.len() + s.len()) by (nonlinear_arith);
    } else {
        assert(0 * s.len() == 0) by (nonlinear_arith);
    }
}

/// The seed of a round is that of the run moved on by the number of the round
/// and the offset, round and round the range of a `u64`. Without a seed there is
/// none.
pub proof fn law_round_seeds_move_on(seed: u64, round: int, offset: u64)
    requires
        0 <= round <= u64::MAX,
    ensures
        round_seed(None, round, offset) is None,
        round_seed(Some(seed), 0, 0) == Some(seed),
        round_seed(Some(seed), round, offset) matches Some(s) && s == (seed + round + offset)
            % 0x1_0000_0000_0000_0000,
{
    let a: u64 = seed.wrapping_add(round as u64);
    let b: u64 = a.wrapping_add(offset);
    assert(a == (seed + round) % 0x1_0000_0000_0000_0000);
    assert(b == (a + offset) % 0x1_0000_0000_0000_0000);
}

/// Whether an attempt was won decides whether its last completion is clean.
proof fn lemma_won_is_last(a: Attempt, limit: int)
    requires
        a.well_formed(limit),
        a.completions.len() > 0,
    ensures
        a.won() <==> clean_answer(a.completions.last(), a.problem.answer()),
{
    if clean_answer(a.completions.last(), a.problem.answer()) {
        assert(clean_answer(a.completions[a.completions.len() - 1], a.problem.answer()));
    }
}

/// The characters of all texts of a list, one after the other.
pub open spec fn joined(lines: Seq<Seq<char>>) -> Seq<char>
    decreases lines.len(),
{
    if lines.len() == 0 {
        seq![]
    } else {
        joined(lines.drop_last()) + lines.last()
    }
}

/// All texts of a list, one after the other.
pub fn concat_texts(v: &Vec<String>) -> (r: String)
    ensures
        r@ == joined(texts(v@)),
{
    let mut out: String = String::new();
    let mut i: usize = 0;
    while i < v.len()
        invariant
            i <= v.len(),
            out@ == joined(texts(v@).take(i as int)),
        decreases v.len() - i,
    {
        out.append(v[i].as_str());
        proof {
            assert(texts(v@).take(i + 1).drop_last() =~= texts(v@).take(i as int));
        }
        i += 1;
    }
    assert(texts(v@).take(i as int) =~= texts(v@));
    out
}

/// `n` copies of `s`, one after the other.
pub open spec fn repeated(s: Seq<u32>, n: nat) -> Seq<u32>
    decreases n,
{
    if n == 0 {
        seq![]
    } else {
        repeated(s, (n - 1) as nat) + s
    }
}

/// The training tokens for a short corpus: as many copies of it as make more
/// than `block_size` tokens, and no more.
pub fn pad_tokens(encoded: Vec<u32>, block_size: usize) -> (r: Vec<u32>)
    requires
        encoded@.len() > 0,
    ensures
        r@.len() > block_size,
        encoded@.len() > block_size ==> r@ == encoded@,
        exists|n: nat|
            n > 0 && r@ == #[trigger] repeated(encoded@, n) && (n > 1 ==> repeated(
                encoded@,
                (n - 1) as nat,
            ).len() <= block_size),
{
    let mut padded: Vec<u32> = copy_list(&encoded);
    let ghost mut n: nat = 1;
    proof {
        reveal_with_fuel(repeated, 2);
        assert(repeated(encoded@, 1) =~= encoded@);
    }
    while padded.len() <= block_size
        invariant
            encoded@.len() > 0,
            n > 0,
            n == 1 ==> padded@ == encoded@,
            encoded@.len() > block_size ==> n == 1,
            padded@ == repeated(encoded@, n),
            n > 1 ==> repeated(encoded@, (n - 1) as nat).len() <= block_size,
        decreases
            if padded@.len() > block_size {
                0
            } else {
                block_size + 1 - padded@.len()
            },
    {
        padded.extend_from_slice(encoded.as_slice());
        proof {
            n = n + 1;
            assert(padded@ =~= repeated(encoded@, n));
        }
    }
    padded
}

/// The message for an empty operand range.
pub open spec fn rft_range_message(min: int, max: int) -> Seq<char> {
    "--rft-min ("@ + signed_decimal(min) + ") must be <= --rft-max ("@ + signed_decimal(max) + ")"@
}

/// The message for a tokenizer that does not encode a newline.
pub open spec fn rft_newline_message() -> Seq<char> {
    "Tokenizer produced no encoding for '\\n' (RFT needs a newline stop token)"@
}

/// Why a run of at least one round cannot start, if it cannot.
pub open spec fn rft_start_error(
    min: int,
    max: int,
    rounds: int,
    newline: Option<u32>,
    ops: Seq<char>,
) -> Option<ErrorView> {
    if min > max {
        Some(ErrorView::InvalidArgument(rft_range_message(min, max)))
    } else if rounds == 0 {
        None
    } else if newline is None {
        Some(ErrorView::InvalidArgument(rft_newline_message()))
    } else {
        match parsed_ops(ops) {
            Ok(_) => None,
            Err(m) => Some(ErrorView::InvalidArgument(m)),
        }
    }
}

/// The parameters of a run that decide what is sampled.
#[derive(Debug, Clone, Copy)]
pub struct RftSetup {
    pub rounds: usize,
    pub prompts_per_round: usize,
    pub samples_per_prompt: usize,
    pub min: i64,
    pub max: i64,
    pub seed: Option<u64>,
}

/// A run in progress.
pub struct RftRun {
    pub setup: RftSetup,
    pub ops: Vec<char>,
    pub newline_token: u32,
    pub phase: RftPhase,
    pub rng: StdRng,
    /// How many problems of this round were drawn.
    pub asked: usize,
    /// How many completions of the current problem were sampled without success.
    pub tries: usize,
    /// The problem for which completions are sampled.
    pub current: Option<Problem>,
    /// The lines that were won in this round.
    pub winners: Vec<String>,
    /// The rounds that are over; in `Training` and `Evaluating` the lists that
    /// the current round has already extended are one longer.
    pub summary: RftSummary,
    /// The attempts of this round that are over.
    pub attempts: Ghost<Seq<Attempt>>,
    /// The completions of the current problem.
    pub completions: Ghost<Seq<Seq<char>>>,
}

/// How a run starts.
pub enum RftStart {
    /// No round was asked for.
    Nothing(RftSummary),
    Run(RftRun),
}

impl RftRun {
    /// The attempt at the current problem.
    pub open spec fn attempt(&self) -> Attempt
        recommends
            self.current is Some,
    {
        Attempt { problem: self.current->0, completions: self.completions@ }
    }

    /// The lists of the summary have one entry per finished round, and the
    /// current round has extended those whose phase is over.
    pub open spec fn summary_fits(&self) -> bool {
        let n = self.summary.rounds as int;
        let s = self.summary;
        let p = self.setup.prompts_per_round;
        &&& s.eval_correct_pct@.len() == n
        &&& s.winner_counts@.len() == s.winner_rates@.len()
        &&& s.winner_counts@.len() == n + if self.phase is Training || self.phase is Evaluating {
            1int
        } else {
            0
        }
        &&& s.per_round_sft_final_losses@.len() == n + if self.phase is Evaluating {
            1int
        } else {
            0
        }
        &&& forall|i: int|
            0 <= i < s.winner_counts@.len() ==> (#[trigger] s.winner_rates@[i]) == (Ratio {
                part: s.winner_counts@[i],
                whole: p,
            })
        &&& forall|i: int| 0 <= i < s.winner_counts@.len() ==> (#[trigger] s.winner_counts@[i]) <= p
        &&& forall|i: int|
            0 <= i < s.per_round_sft_final_losses@.len() ==> ((
            #[trigger] s.per_round_sft_final_losses@[i]) is None <==> s.winner_counts@[i] == 0)
        &&& self.phase is Training ==> s.winner_counts@[n] > 0
        &&& self.phase is Done <==> n == self.setup.rounds
        &&& n <= self.setup.rounds
    }

    /// Whether a problem is one of those that the run draws: operands in the
    /// range and an operator of the list.
    pub open spec fn asks_for(&self, p: Problem) -> bool {
        p.drawn_from(self.setup.min as int, self.setup.max as int, self.ops@)
    }

    /// The lines won are those of the attempts that were won; no attempt took
    /// more samples than allowed, nor one after success. The problems have
    /// operands in the range and an operator of the list.
    pub open spec fn well_formed(&self) -> bool {
        &&& self.setup.min <= self.setup.max
        &&& self.ops@.len() > 0
        &&& self.setup.prompts_per_round > 0 ==> answers_fit(
            self.setup.min as int,
            self.setup.max as int,
            self.ops@,
        )
        &&& self.asked <= self.setup.prompts_per_round
        &&& self.asked == self.attempts@.len() + if self.current is Some {
            1int
        } else {
            0
        }
        &&& texts(self.winners@) == won_lines(self.attempts@)
        &&& forall|i: int|
            0 <= i < self.attempts@.len() ==> (#[trigger] self.attempts@[i]).well_formed(
                self.setup.samples_per_prompt as int,
            ) && self.attempts@[i].finished(self.setup.samples_per_prompt as int)
                && self.asks_for(self.attempts@[i].problem)
        &&& self.current is Some ==> {
            &&& self.attempt().well_formed(self.setup.samples_per_prompt as int)
            &&& !self.attempt().won()
            &&& self.tries == self.completions@.len()
            &&& self.phase is Sampling
            &&& self.asks_for(self.current->0)
        }
        &&& self.summary_fits()
    }

    /// Whether another completion of the current problem is wanted.
    pub open spec fn wants(&self) -> bool {
        self.current is Some && self.tries < self.setup.samples_per_prompt
    }

    /// Whether two runs have the same parameters.
    pub open spec fn same_setup(&self, other: &RftRun) -> bool {
        &&& self.setup == other.setup
        &&& self.ops == other.ops
        &&& self.newline_token == other.newline_token
    }

    /// Starts a run, or reports at once that there is nothing to do.
    pub fn start(setup: RftSetup, newline: Option<u32>, ops: &str) -> (r: SmolResult<RftStart>)
        requires
            rft_start_error(
                setup.min as int,
                setup.max as int,
                setup.rounds as int,
                newline,
                ops@,
            ) is None && setup.rounds > 0 && setup.prompts_per_round > 0 ==> answers_fit(
                setup.min as int,
                setup.max as int,
                parsed_ops(ops@)->Ok_0,
            ),
        ensures
            match rft_start_error(
                setup.min as int,
                setup.max as int,
                setup.rounds as int,
                newline,
                ops@,
            ) {
                Some(e) => fails_with(r, e),
                None => r is Ok,
            },
            r matches Ok(RftStart::Nothing(s)) ==> setup.rounds == 0 && s.rounds == 0
                && s.well_formed(setup.prompts_per_round as int),
            r matches Ok(RftStart::Run(run)) ==> {
                &&& setup.rounds > 0
                &&& run.well_formed()
                &&& run.setup == setup
                &&& parsed_ops(ops@) == Ok::<Seq<char>, Seq<char>>(run.ops@)
                &&& Some(run.newline_token) == newline
                &&& run.phase is Sampling
                &&& run.summary.rounds == 0
                &&& run.attempts@ == Seq::<Attempt>::empty()
                &&& run.current is None
                &&& round_seed(setup.seed, 0, 0) matches Some(s) ==> rng_state(run.rng)
                    == seeded_state(s)
            },
    {
        if setup.min > setup.max {
            let mut m: String = "--rft-min (".to_owned();
            push_signed(&mut m, setup.min);
            m.append(") must be <= --rft-max (");
            push_signed(&mut m, setup.max);
            m.append(")");
            return Err(SmolError::InvalidArgument(m));
        }
        let summary: RftSummary = RftSummary {
            rounds: 0,
            winner_counts: Vec::new(),
            winner_rates: Vec::new(),
            eval_correct_pct: Vec::new(),
            per_round_sft_final_losses: Vec::new(),
        };
        if setup.rounds == 0 {
            return Ok(RftStart::Nothing(summary));
        }
        let newline_token: u32 = match newline {
            Some(t) => t,
            None => {
                return Err(
                    SmolError::invalid_argument(
                        "Tokenizer produced no encoding for '\\n' (RFT needs a newline stop token)",
                    ),
                );
            },
        };
        let ops_list: Vec<char> = match parse_ops(ops) {
            Ok(l) => l,
            Err(e) => {
                return Err(e);
            },
        };
        let run: RftRun = RftRun {
            setup,
            ops: ops_list,
            newline_token,
            phase: RftPhase::Sampling,
            rng: rng_for(seed_for_round(setup.seed, 0, 0)),
            asked: 0,
            tries: 0,
            current: None,
            winners: Vec::new(),
            summary,
            attempts: Ghost(Seq::empty()),
            completions: Ghost(Seq::empty()),
        };
        assert(texts(run.winners@) =~= won_lines(run.attempts@));
        Ok(RftStart::Run(run))
    }

    /// Whether another completion of the current problem is wanted.
    pub fn wants_sample(&self) -> (r: bool)
        ensures
            r == self.wants(),
            r <==> self.current is Some && self.tries < self.setup.samples_per_prompt,
    {
        self.current.is_some() && self.tries < self.setup.samples_per_prompt
    }

    /// Draws the next problem of the round, or `None` when all were drawn. The
    /// attempt at the problem before it is over.
    pub fn next_problem(&mut self) -> (r: Option<Problem>)
        requires
            old(self).well_formed(),
            old(self).phase is Sampling,
            !old(self).wants(),
        ensures
            final(self).well_formed(),
            final(self).same_setup(old(self)),
            final(self).phase is Sampling,
            final(self).summary == old(self).summary,
            final(self).winners == old(self).winners,
            final(self).current == r,
            final(self).attempts@ == if old(self).current is Some {
                old(self).attempts@.push(old(self).attempt())
            } else {
                old(self).attempts@
            },
            match r {
                None => old(self).asked == old(self).setup.prompts_per_round && final(self).rng
                    == old(self).rng,
                Some(p) => {
                    &&& old(self).asked < old(self).setup.prompts_per_round
                    &&& final(self).asked == old(self).asked + 1
                    &&& final(self).completions@ == Seq::<Seq<char>>::empty()
                    &&& (p, rng_state(final(self).rng)) == drawn_problem(
                        rng_state(old(self).rng),
                        old(self).setup.min,
                        old(self).setup.max,
                        old(self).ops@,
                    )
                },
            },
    {
        proof {
            if self.current is Some {
                let done = self.attempts@.push(self.attempt());
                assert(done.drop_last() =~= self.attempts@);
                self.attempts@ = done;
            }
        }
        self.current = None;
        if self.asked == self.setup.prompts_per_round {
            return None;
        }
        let p: Problem = draw_problem(&mut self.rng, self.setup.min, self.setup.max, &self.ops);
        self.current = Some(p);
        self.tries = 0;
        self.asked = self.asked + 1;
        proof {
            self.completions@ = Seq::empty();
        }
        Some(p)
    }

    /// Judges a completion of the current problem. A clean right answer ends
    /// the attempt and adds the right line to the winners.
    pub fn offer(&mut self, completion: &str) -> (won: bool)
        requires
            old(self).well_formed(),
            old(self).wants(),
        ensures
            final(self).well_formed(),
            final(self).same_setup(old(self)),
            final(self).phase is Sampling,
            final(self).summary == old(self).summary,
            final(self).rng == old(self).rng,
            final(self).asked == old(self).asked,
            won == clean_answer(completion@, old(self).current->0.answer()),
            won ==> {
                &&& final(self).current is None
                &&& texts(final(self).winners@) == texts(old(self).winners@).push(
                    old(self).current->0.fact_text(),
                )
                &&& final(self).attempts@ == old(self).attempts@.push(
                    Attempt {
                        problem: old(self).current->0,
                        completions: old(self).completions@.push(completion@),
                    },
                )
            },
            !won ==> {
                &&& final(self).current == old(self).current
                &&& final(self).winners == old(self).winners
                &&& final(self).attempts == old(self).attempts
                &&& final(self).completions@ == old(self).completions@.push(completion@)
            },
    {
        let p: Problem = match self.current {
            Some(p) => p,
            None => {
                return false;
            },
        };
        let ghost done = Attempt { problem: p, completions: self.completions@.push(completion@) };
        proof {
            let old_attempt = self.attempt();
            assert forall|i: int| 0 <= i < done.completions.len() - 1 implies !clean_answer(
                #[trigger] done.completions[i],
                p.answer(),
            ) by {
                assert(done.completions[i] == old_attempt.completions[i]);
            }
            lemma_won_is_last(done, self.setup.samples_per_prompt as int);
        }
        if is_clean_answer(completion, p.true_answer()) {
            let ghost lines = texts(self.winners@);
            self.winners.push(p.fact_line());
            self.current = None;
            proof {
                assert(texts(self.winners@) =~= lines.push(p.fact_text()));
                let attempts = self.attempts@.push(done);
                assert(attempts.drop_last() =~= self.attempts@);
                self.attempts@ = attempts;
            }
            true
        } else {
            self.tries = self.tries + 1;
            proof {
                self.completions@ = self.completions@.push(completion@);
            }
            false
        }
    }

    /// Ends the sampling of a round: counts what was won and returns the corpus
    /// of the winners, on which the model is then trained unless nothing was
    /// won.
    pub fn end_sampling(&mut self) -> (corpus: String)
        requires
            old(self).well_formed(),
            old(self).phase is Sampling,
            old(self).current is None,
            old(self).asked == old(self).setup.prompts_per_round,
        ensures
            final(self).well_formed(),
            final(self).same_setup(old(self)),
            final(self).attempts == old(self).attempts,
            corpus@ == joined(won_lines(old(self).attempts@)),
            final(self).phase == if won_lines(old(self).attempts@).len() == 0 {
                RftPhase::Evaluating
            } else {
                RftPhase::Training
            },
            final(self).summary.rounds == old(self).summary.rounds,
            final(self).summary.winner_counts@.last() == won_lines(old(self).attempts@).len(),
            final(self).summary.winner_rates@.last() == (Ratio {
                part: won_lines(old(self).attempts@).len() as usize,
                whole: old(self).setup.prompts_per_round,
            }),
            final(self).summary.winner_counts@.drop_last() == old(self).summary.winner_counts@,
            final(self).summary.winner_rates@.drop_last() == old(self).summary.winner_rates@,
            final(self).summary.eval_correct_pct == old(self).summary.eval_correct_pct,
            final(self).phase is Training ==> final(self).summary.per_round_sft_final_losses
                == old(self).summary.per_round_sft_final_losses,
            final(self).phase is Evaluating
                ==> final(self).summary.per_round_sft_final_losses@.drop_last()
                == old(self).summary.per_round_sft_final_losses@,
    {
        let n: usize = self.winners.len();
        let corpus: String = concat_texts(&self.winners);
        proof {
            lemma_won_lines_len(self.attempts@);
            assert(texts(self.winners@).len() == n);
        }
        self.summary.winner_counts.push(n);
        self.summary.winner_rates.push(Ratio { part: n, whole: self.setup.prompts_per_round });
        if n == 0 {
            self.summary.per_round_sft_final_losses.push(None);
            self.phase = RftPhase::Evaluating;
        } else {
            self.phase = RftPhase::Training;
        }
        proof {
            let a = old(self).summary;
            let b = self.summary;
            assert(b.winner_counts@.drop_last() =~= a.winner_counts@);
            assert(b.winner_rates@.drop_last() =~= a.winner_rates@);
            if n == 0 {
                assert(b.per_round_sft_final_losses@.drop_last() =~= a.per_round_sft_final_losses@);
            }
            assert forall|i: int| 0 <= i < b.per_round_sft_final_losses@.len() implies ((
            #[trigger] b.per_round_sft_final_losses@[i]) is None <==> b.winner_counts@[i] == 0) by {
                if i < a.per_round_sft_final_losses@.len() {
                    assert(b.per_round_sft_final_losses@[i] == a.per_round_sft_final_losses@[i]);
                }
            }
            assert forall|i: int| 0 <= i < b.winner_counts@.len() implies (
            #[trigger] b.winner_rates@[i]) == (Ratio {
                part: b.winner_counts@[i],
                whole: self.setup.prompts_per_round,
            }) by {
                if i < a.winner_counts@.len() {
                    assert(b.winner_rates@[i] == a.winner_rates@[i]);
                }
            }
        }
        corpus
    }

    /// The seed of the training batches of this round.
    pub fn dataset_seed(&self) -> (r: Option<u64>)
        ensures
            r == round_seed(self.setup.seed, self.summary.rounds as int, DATASET_SEED_OFFSET),
            self.setup.seed is None ==> r is None,
            self.setup.seed matches Some(s) ==> r == Some(
                ((s + self.summary.rounds + 0x9e37_79b9_7f4a_7c15int) % 0x1_0000_0000_0000_0000) as u64,
            ),
    {
        proof {
            if let Some(s) = self.setup.seed {
                law_round_seeds_move_on(s, self.summary.rounds as int, DATASET_SEED_OFFSET);
            }
        }
        seed_for_round(self.setup.seed, self.summary.rounds, DATASET_SEED_OFFSET)
    }

    /// The seed of the evaluation of this round.
    pub fn eval_seed(&self) -> (r: Option<u64>)
        ensures
            r == round_seed(self.setup.seed, self.summary.rounds as int, 1),
    {
        seed_for_round(self.setup.seed, self.summary.rounds, 1)
    }

    /// Takes the final loss of the training of this round.
    pub fn trained(&mut self, final_loss: u32)
        requires
            old(self).well_formed(),
            old(self).phase is Training,
        ensures
            final(self).well_formed(),
            final(self).same_setup(old(self)),
            final(self).phase is Evaluating,
            final(self).summary.rounds == old(self).summary.rounds,
            final(self).summary.winner_counts == old(self).summary.winner_counts,
            final(self).summary.winner_rates == old(self).summary.winner_rates,
            final(self).summary.eval_correct_pct == old(self).summary.eval_correct_pct,
            final(self).summary.per_round_sft_final_losses@
                == old(self).summary.per_round_sft_final_losses@.push(Some(final_loss)),
    {
        self.summary.per_round_sft_final_losses.push(Some(final_loss));
        self.phase = RftPhase::Evaluating;
        proof {
            let a = old(self).summary.per_round_sft_final_losses@;
            let b = self.summary.per_round_sft_final_losses@;
            assert forall|i: int| 0 <= i < b.len() implies ((#[trigger] b[i]) is None
                <==> self.summary.winner_counts@[i] == 0) by {
                if i < a.len() {
                    assert(b[i] == a[i]);
                }
            }
        }
    }

    /// Takes the evaluation of this round, closes it and opens the next one.
    /// Returns the trajectory so far, which is the whole one after the last
    /// round.
    pub fn evaluated(&mut self, correct: usize, total: usize) -> (partial: RftSummary)
        requires
            old(self).well_formed(),
            old(self).phase is Evaluating,
        ensures
            final(self).well_formed(),
            final(self).same_setup(old(self)),
            partial.well_formed(old(self).setup.prompts_per_round as int),
            partial.rounds == old(self).summary.rounds + 1,
            partial.winner_counts@ == old(self).summary.winner_counts@,
            partial.winner_rates@ == old(self).summary.winner_rates@,
            partial.eval_correct_pct@ == old(self).summary.eval_correct_pct@.push(
                Ratio { part: correct, whole: total },
            ),
            partial.per_round_sft_final_losses@
                == old(self).summary.per_round_sft_final_losses@,
            final(self).summary.rounds == partial.rounds,
            final(self).summary.winner_counts@ == partial.winner_counts@,
            final(self).summary.winner_rates@ == partial.winner_rates@,
            final(self).summary.eval_correct_pct@ == partial.eval_correct_pct@,
            final(self).summary.per_round_sft_final_losses@
                == partial.per_round_sft_final_losses@,
            final(self).phase == if partial.rounds == old(self).setup.rounds {
                RftPhase::Done
            } else {
                RftPhase::Sampling
            },
            final(self).phase is Sampling ==> {
                &&& final(self).attempts@ == Seq::<Attempt>::empty()
                &&& final(self).current is None
                &&& round_seed(old(self).setup.seed, partial.rounds as int, 0) matches Some(s)
                    ==> rng_state(final(self).rng) == seeded_state(s)
            },
    {
        self.summary.eval_correct_pct.push(Ratio { part: correct, whole: total });
        self.summary.rounds = self.summary.rounds + 1;
        if self.summary.rounds == self.setup.rounds {
            self.phase = RftPhase::Done;
        } else {
            self.phase = RftPhase::Sampling;
            self.rng = rng_for(seed_for_round(self.setup.seed, self.summary.rounds, 0));
            self.asked = 0;
            self.tries = 0;
            self.winners = Vec::new();
            proof {
                self.attempts@ = Seq::empty();
                self.completions@ = Seq::empty();
                assert(texts(self.winners@) =~= won_lines(self.attempts@));
            }
        }
        RftSummary {
            rounds: self.summary.rounds,
            winner_counts: copy_list(&self.summary.winner_counts),
            winner_rates: copy_list(&self.summary.winner_rates),
            eval_correct_pct: copy_list(&self.summary.eval_correct_pct),
            per_round_sft_final_losses: copy_list(&self.summary.per_round_sft_final_losses),
        }
    }
}

/// A run starts unless its range is empty; with rounds to run it also needs a
/// token for a newline and an operator list that can be read, and is told of the
/// first thing that is missing.
pub proof fn law_what_stops_a_run(
    min: int,
    max: int,
    rounds: int,
    newline: Option<u32>,
    ops: Seq<char>,
)
    ensures
        rft_start_error(min, max, rounds, newline, ops) is None <==> min <= max && (rounds == 0 || (
        newline is Some && parsed_ops(ops) is Ok)),
        min > max ==> rft_start_error(min, max, rounds, newline, ops) == Some(
            ErrorView::InvalidArgument(
                "--rft-min ("@ + signed_decimal(min) + ") must be <= --rft-max ("@ + signed_decimal(
                    max,
                ) + ")"@,
            ),
        ),
        min <= max && rounds != 0 && newline is None ==> rft_start_error(
            min,
            max,
            rounds,
            newline,
            ops,
        ) == Some(
            ErrorView::InvalidArgument(
                "Tokenizer produced no encoding for '\\n' (RFT needs a newline stop token)"@,
            ),
        ),
        min <= max && rounds != 0 && newline is Some ==> (parsed_ops(ops) matches Err(m)
            ==> rft_start_error(min, max, rounds, newline, ops) == Some(
            ErrorView::InvalidArgument(m),
        )),
{
}

/// An attempt is over with a clean right answer or with its last completion, and
/// no completion comes behind a clean right answer.
pub proof fn law_attempts_end_at_the_first_success(a: Attempt, limit: int, i: int, j: int)
    requires
        a.well_formed(limit),
        a.finished(limit),
        0 <= i < j < a.completions.len(),
    ensures
        !clean_answer(a.completions[i], a.problem.answer()),
        a.completions.len() <= limit,
        a.completions.len() == limit || clean_answer(a.completions.last(), a.problem.answer()),
{
    if a.completions.len() < limit {
        let k = choose|k: int|
            0 <= k < a.completions.len() && clean_answer(
                #[trigger] a.completions[k],
                a.problem.answer(),
            );
        assert(clean_answer(a.completions[k], a.problem.answer()));
    }
}

/// The lists of a summary have an entry for each round: how many problems were
/// won, which share that is, and a loss exactly where something was won.
pub proof fn law_summary_has_an_entry_for_each_round(s: RftSummary, prompts: usize, i: int)
    requires
        s.well_formed(prompts as int),
        0 <= i < s.rounds,
    ensures
        s.winner_counts@.len() == s.rounds,
        s.winner_rates@.len() == s.rounds,
        s.eval_correct_pct@.len() == s.rounds,
        s.per_round_sft_final_losses@.len() == s.rounds,
        s.winner_rates@[i].part == s.winner_counts@[i],
        s.winner_rates@[i].whole == prompts,
        s.winner_counts@[i] <= prompts,
        s.per_round_sft_final_losses@[i] is Some <==> s.winner_counts@[i] > 0,
{
}

} // verus!
