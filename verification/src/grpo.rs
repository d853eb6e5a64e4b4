//! Group-relative policy optimisation: for each prompt a group of completions
//! is sampled and rewarded, and the policy moves by the rewards relative to
//! the group.
//!
//! A run decides; sampling, stepping, saving and evaluating happen outside.
use crate::args::GrpoMode;
use crate::error::fails_with;
use crate::error::ErrorView;
use crate::error::SmolError;
use crate::error::SmolResult;
use crate::list::copy_list;
use crate::list::Ratio;
use crate::number::push_signed;
use crate::number::signed_decimal;
use crate::problem::answers_fit;
use crate::problem::clean_answer;
use crate::problem::draw_problem;
use crate::problem::drawn_problem;
use crate::problem::is_clean_answer;
use crate::problem::parse_ops;
use crate::problem::parsed_ops;
use crate::problem::Problem;
use crate::rft::round_seed;
use crate::rft::seed_for_round;
use crate::rng::rng_for;
use crate::rng::rng_state;
use crate::rng::seeded_state;
use rand::rngs::StdRng;
use vstd::prelude::*;
use vstd::string::*;

verus! {

/// The name of a mode.
pub open spec fn mode_name(mode: GrpoMode) -> Seq<char> {
    match mode {
        GrpoMode::Lite => "lite"@,
        GrpoMode::Full => "full"@,
    }
}

/// The name of a mode.
pub fn mode_text(mode: GrpoMode) -> (r: String)
    ensures
        r@ == mode_name(mode),
{
    match mode {
        GrpoMode::Lite => "lite".to_owned(),
        GrpoMode::Full => "full".to_owned(),
    }
}

/// The mode of a stored run that does not name one.
pub fn default_grpo_mode() -> (r: String)
    ensures
        r@ == "lite"@,
{
    "lite".to_owned()
}

/// The trajectory of a run. The lists run in parallel, one entry per round. A
/// round in which no step was taken has no loss. A loss is held by the
/// bits of its 32-bit floating-point form.
#[derive(Debug, Clone)]
pub struct GrpoSummary {
    pub rounds: usize,
    pub group_size: usize,
    pub mode: String,
    pub correct_rates: Vec<Ratio>,
    pub eval_correct_pct: Vec<Ratio>,
    pub per_round_losses: Vec<Option<u32>>,
}

impl GrpoSummary {
    /// One entry per round in each list; each rate is over all completions of
    /// the round.
    pub open spec fn well_formed(&self, samples: int) -> bool {
        &&& self.correct_rates@.len() == self.rounds
        &&& self.eval_correct_pct@.len() == self.rounds
        &&& self.per_round_losses@.len() == self.rounds
        &&& forall|i: int|
            0 <= i < self.rounds ==> (#[trigger] self.correct_rates@[i]).whole == samples
                && self.correct_rates@[i].part <= samples
    }
}

/// How many of `rewards` are set.
pub open spec fn reward_sum(rewards: Seq<bool>) -> nat
    decreases rewards.len(),
{
    if rewards.len() == 0 {
        0
    } else {
        reward_sum(rewards.drop_last()) + if rewards.last() {
            1nat
        } else {
            0nat
        }
    }
}

proof fn lemma_reward_sum(rewards: Seq<bool>)
    ensures
        reward_sum(rewards) <= rewards.len(),
    decreases rewards.len(),
{
    if rewards.len() > 0 {
        lemma_reward_sum(rewards.drop_last());
    }
}

/// Whether all rewards of a group are equal, so that none is above or below
/// the mean of the group.
pub open spec fn is_uniform(rewards: Seq<bool>) -> bool {
    forall|i: int, j: int|
        0 <= i < rewards.len() && 0 <= j < rewards.len() ==> #[trigger] rewards[i]
            == #[trigger] rewards[j]
}

/// Whether all rewards of a group are equal.
pub fn uniform_rewards(rewards: &Vec<bool>) -> (r: bool)
    ensures
        r == is_uniform(rewards@),
{
    let mut i: usize = 1;
    while i < rewards.len()
        invariant
            i >= 1,
            forall|k: int| 0 <= k < i && k < rewards@.len() ==> #[trigger] rewards@[k] == rewards@[0],
        decreases rewards.len() - i,
    {
        if rewards[i] != rewards[0] {
            assert(rewards@[i as int] != rewards@[0]);
            return false;
        }
        i += 1;
    }
    true
}

/// Rewards add up: each reward counts one, and groups count together.
pub proof fn law_rewards_add_up(a: Seq<bool>, b: Seq<bool>, r: bool)
    ensures
        reward_sum(Seq::empty()) == 0,
        reward_sum(seq![r]) == if r {
            1nat
        } else {
            0
        },
        reward_sum(a + b) == reward_sum(a) + reward_sum(b),
    decreases b.len(),
{
    reveal_with_fuel(reward_sum, 2);
    let one = seq![r];
    assert(one.drop_last() =~= Seq::<bool>::empty());
    if b.len() == 0 {
        assert(a + b =~= a);
    } else {
        assert((a + b).drop_last() =~= a + b.drop_last());
        law_rewards_add_up(a, b.drop_last(), r);
    }
}

/// A round counts the rewards of all its groups, and the groups that hold both
/// a reward and none.
pub proof fn law_groups_add_up(groups: Seq<Seq<bool>>, g: Seq<bool>)
    ensures
        rewards_of(Seq::empty()) == 0,
        rewards_of(groups.push(g)) == rewards_of(groups) + reward_sum(g),
        mixed_groups(Seq::empty()) == 0,
        mixed_groups(groups.push(g)) == mixed_groups(groups) + if g.contains(true) && g.contains(
            false,
        ) {
            1nat
        } else {
            0
        },
{
    lemma_groups_push(groups, g);
    if is_uniform(g) {
        if g.contains(true) && g.contains(false) {
            let i = choose|i: int| 0 <= i < g.len() && g[i] == true;
            let j = choose|j: int| 0 <= j < g.len() && g[j] == false;
            assert(g[i] == g[j]);
        }
    } else {
        let (i, j) = choose|i: int, j: int|
            0 <= i < g.len() && 0 <= j < g.len() && #[trigger] g[i] != #[trigger] g[j];
        assert(g.contains(g[i]) && g.contains(g[j]));
    }
}

/// A group is uniform exactly when none or all of it was rewarded.
pub proof fn law_uniform_means_none_or_all(rewards: Seq<bool>)
    ensures
        is_uniform(rewards) <==> reward_sum(rewards) == 0 || reward_sum(rewards) == rewards.len(),
    decreases rewards.len(),
{
    if rewards.len() > 0 {
        let rest = rewards.drop_last();
        law_uniform_means_none_or_all(rest);
        lemma_reward_sum(rest);
        if is_uniform(rewards) {
            assert forall|i: int, j: int| 0 <= i < rest.len() && 0 <= j < rest.len() implies
                #[trigger] rest[i] == #[trigger] rest[j] by {
                assert(rewards[i] == rewards[j]);
            }
            if rest.len() > 0 {
                assert(rewards[0] == rewards[rewards.len() - 1]);
                lemma_sum_of_uniform(rest);
                assert(rest[0] == rewards[0]);
            }
        }
        if reward_sum(rewards) == 0 || reward_sum(rewards) == rewards.len() {
            lemma_uniform_from_sum(rewards);
        }
    }
}

proof fn lemma_sum_of_uniform(rewards: Seq<bool>)
    requires
        is_uniform(rewards),
        rewards.len() > 0,
    ensures
        reward_sum(rewards) == if rewards[0] {
            rewards.len()
        } else {
            0
        },
    decreases rewards.len(),
{
    let rest = rewards.drop_last();
    assert(rewards[rewards.len() - 1] == rewards[0]);
    if rest.len() > 0 {
        assert forall|i: int, j: int| 0 <= i < rest.len() && 0 <= j < rest.len() implies
            #[trigger] rest[i] == #[trigger] rest[j] by {
            assert(rewards[i] == rewards[j]);
        }
        lemma_sum_of_uniform(rest);
    } else {
        assert(reward_sum(rest) == 0);
    }
}

proof fn lemma_uniform_from_sum(rewards: Seq<bool>)
    requires
        reward_sum(rewards) == 0 || reward_sum(rewards) == rewards.len(),
    ensures
        forall|i: int|
            0 <= i < rewards.len() ==> #[trigger] rewards[i] == (reward_sum(rewards) != 0),
    decreases rewards.len(),
{
    if rewards.len() > 0 {
        let rest = rewards.drop_last();
        lemma_reward_sum(rest);
        lemma_uniform_from_sum(rest);
        assert forall|i: int| 0 <= i < rewards.len() implies #[trigger] rewards[i] == (reward_sum(
            rewards,
        ) != 0) by {
            if i < rest.len() {
                assert(rewards[i] == rest[i]);
            }
        }
    }
}

/// The message for an empty operand range.
pub open spec fn grpo_range_message(min: int, max: int) -> Seq<char> {
    "--grpo-min ("@ + signed_decimal(min) + ") must be <= --grpo-max ("@ + signed_decimal(max)
        + ")"@
}

/// The message for a group that is too small.
pub open spec fn grpo_group_message() -> Seq<char> {
    "--grpo-group must be >= 2 (need a group to compute relative advantage)"@
}

/// The message for a tokenizer that does not encode a newline.
pub open spec fn grpo_newline_message() -> Seq<char> {
    "Tokenizer produced no encoding for '\\n' (GRPO needs a newline stop token)"@
}

/// The parameters of a run that decide what is sampled.
#[derive(Debug, Clone, Copy)]
pub struct GrpoSetup {
    pub rounds: usize,
    pub prompts_per_round: usize,
    pub group_size: usize,
    pub min: i64,
    pub max: i64,
    pub mode: GrpoMode,
    pub seed: Option<u64>,
}

/// Why a run cannot start, if it cannot: an empty range, then a group that is
/// too small; and where rounds were asked for a bad operator list, then a
/// missing newline token.
pub open spec fn grpo_start_error(
    setup: GrpoSetup,
    newline: Option<u32>,
    ops: Seq<char>,
) -> Option<ErrorView> {
    if setup.min > setup.max {
        Some(ErrorView::InvalidArgument(grpo_range_message(setup.min as int, setup.max as int)))
    } else if setup.group_size < 2 {
        Some(ErrorView::InvalidArgument(grpo_group_message()))
    } else if setup.rounds == 0 {
        None
    } else {
        match parsed_ops(ops) {
            Err(m) => Some(ErrorView::InvalidArgument(m)),
            Ok(_) => if newline is None {
                Some(ErrorView::InvalidArgument(grpo_newline_message()))
            } else {
                None
            },
        }
    }
}

/// Where a run stands.
#[derive(Debug, Clone, Copy, PartialEq, Eq, Structural)]
pub enum GrpoPhase {
    /// Completions of a group are sampled, or the next problem is due.
    Sampling,
    /// The group is complete; the policy is to move by it.
    Stepping,
    /// All groups of the round are done.
    Evaluating,
    Done,
}

/// What to do with a complete group.
#[derive(Debug, Clone, Copy, PartialEq, Eq, Structural)]
pub enum GroupPlan {
    /// All rewards are equal: the group says nothing.
    Skip,
    /// Move the policy by the rewards.
    Step(GrpoMode),
}

/// A run in progress.
pub struct GrpoRun {
    pub setup: GrpoSetup,
    pub ops: Vec<char>,
    pub newline_token: u32,
    pub phase: GrpoPhase,
    pub rng: StdRng,
    /// How many problems of this round were drawn.
    pub asked: usize,
    /// The problem for which completions are sampled.
    pub current: Option<Problem>,
    /// The rewards of the current group, in order.
    pub rewards: Vec<bool>,
    pub total_rewards: usize,
    pub total_samples: usize,
    /// How many steps were taken in this round, at most one for each group.
    pub steps_taken: usize,
    pub summary: GrpoSummary,
    /// The complete groups of this round.
    pub groups: Ghost<Seq<Seq<bool>>>,
    /// The problems of this round that were handed out.
    pub problems: Ghost<Seq<Problem>>,
}

/// How a run starts.
pub enum GrpoStart {
    /// No round was asked for.
    Nothing(GrpoSummary),
    Run(GrpoRun),
}

/// How many completions of `groups` were rewarded.
pub open spec fn rewards_of(groups: Seq<Seq<bool>>) -> nat
    decreases groups.len(),
{
    if groups.len() == 0 {
        0
    } else {
        rewards_of(groups.drop_last()) + reward_sum(groups.last())
    }
}

/// How many of `groups` are not uniform.
pub open spec fn mixed_groups(groups: Seq<Seq<bool>>) -> nat
    decreases groups.len(),
{
    if groups.len() == 0 {
        0
    } else {
        mixed_groups(groups.drop_last()) + if is_uniform(groups.last()) {
            0nat
        } else {
            1nat
        }
    }
}

proof fn lemma_groups_push(groups: Seq<Seq<bool>>, g: Seq<bool>)
    ensures
        rewards_of(groups.push(g)) == rewards_of(groups) + reward_sum(g),
        mixed_groups(groups.push(g)) == mixed_groups(groups) + if is_uniform(g) {
            0nat
        } else {
            1nat
        },
{
    assert(groups.push(g).drop_last() =~= groups);
}

proof fn lemma_rewards_bound(groups: Seq<Seq<bool>>, size: nat)
    requires
        forall|i: int| 0 <= i < groups.len() ==> (#[trigger] groups[i]).len() == size,
    ensures
        rewards_of(groups) <= groups.len() * size,
        mixed_groups(groups) <= groups.len(),
    decreases groups.len(),
{
    if groups.len() > 0 {
        let rest = groups.drop_last();
        assert forall|i: int| 0 <= i < rest.len() implies (#[trigger] rest[i]).len() == size by {
            assert(rest[i] == groups[i]);
        }
        lemma_rewards_bound(rest, size);
        assert(groups[groups.len() - 1].len() == size);
        lemma_reward_sum(groups.last());
        assert(groups.len() * size == rest.len() * size + size) by (nonlinear_arith)
            requires
                groups.len() == rest.len() + 1,
        ;
    }
}

impl GrpoRun {
    /// The number of completions of a round.
    pub open spec fn round_samples(&self) -> int {
        self.setup.prompts_per_round * self.setup.group_size
    }

    /// The tallies are those of the complete groups, at most one step was taken
    /// for every mixed group, and the summary has one entry per finished round.
    /// The problems have operands in the range and an operator of the list.
    pub open spec fn well_formed(&self) -> bool {
        &&& self.setup.min <= self.setup.max
        &&& self.setup.group_size >= 2
        &&& self.ops@.len() > 0
        &&& self.setup.prompts_per_round > 0 ==> answers_fit(
            self.setup.min as int,
            self.setup.max as int,
            self.ops@,
        )
        &&& self.round_samples() <= usize::MAX
        &&& self.asked <= self.setup.prompts_per_round
        &&& self.asked == self.groups@.len() + if self.phase is Sampling && self.current is Some {
            1int
        } else {
            0
        }
        &&& forall|i: int|
            0 <= i < self.groups@.len() ==> (#[trigger] self.groups@[i]).len()
                == self.setup.group_size
        &&& self.total_rewards == rewards_of(self.groups@)
        &&& self.total_samples == self.groups@.len() * self.setup.group_size
        &&& self.phase is Sampling && self.current is Some ==> self.rewards@.len()
            < self.setup.group_size && self.current->0.fits()
        &&& self.phase is Stepping ==> self.groups@.len() > 0 && self.groups@.last()
            == self.rewards@ && !is_uniform(self.rewards@) && self.steps_taken + 1 <= mixed_groups(
            self.groups@,
        )
        &&& self.steps_taken <= mixed_groups(self.groups@)
        &&& self.phase is Evaluating ==> self.groups@.len() == self.setup.prompts_per_round
        &&& self.phase is Evaluating || self.phase is Stepping || self.phase is Done
            ==> self.current is None
        &&& self.problems@.len() == self.asked
        &&& self.current is Some ==> self.problems@.len() > 0 && self.problems@.last()
            == self.current->0
        &&& forall|i: int|
            0 <= i < self.problems@.len() ==> (#[trigger] self.problems@[i]).drawn_from(
                self.setup.min as int,
                self.setup.max as int,
                self.ops@,
            )
        &&& self.summary.well_formed(self.round_samples())
        &&& self.summary.group_size == self.setup.group_size
        &&& self.summary.mode@ == mode_name(self.setup.mode)
        &&& self.summary.rounds <= self.setup.rounds
        &&& self.phase is Done <==> self.summary.rounds == self.setup.rounds
    }

    /// Whether another completion of the current problem is wanted.
    pub open spec fn wants(&self) -> bool {
        self.phase is Sampling && self.current is Some
    }

    /// Whether two runs have the same parameters.
    pub open spec fn same_setup(&self, other: &GrpoRun) -> bool {
        &&& self.setup == other.setup
        &&& self.ops == other.ops
        &&& self.newline_token == other.newline_token
    }

    /// Starts a run, or reports at once that there is nothing to do.
    pub fn start(setup: GrpoSetup, newline: Option<u32>, ops: &str) -> (r: SmolResult<GrpoStart>)
        requires
            grpo_start_error(setup, newline, ops@) is None && setup.rounds > 0
                && setup.prompts_per_round > 0 ==> answers_fit(
                setup.min as int,
                setup.max as int,
                parsed_ops(ops@)->Ok_0,
            ),
            grpo_start_error(setup, newline, ops@) is None && setup.rounds > 0
                ==> setup.prompts_per_round * setup.group_size <= usize::MAX,
        ensures
            match grpo_start_error(setup, newline, ops@) {
                Some(e) => fails_with(r, e),
                None => r is Ok,
            },
            r matches Ok(GrpoStart::Nothing(s)) ==> setup.rounds == 0 && s.rounds == 0
                && s.group_size == setup.group_size && s.mode@ == mode_name(setup.mode)
                && s.well_formed(setup.prompts_per_round * setup.group_size),
            r matches Ok(GrpoStart::Run(run)) ==> {
                &&& setup.rounds > 0
                &&& run.well_formed()
                &&& run.setup == setup
                &&& parsed_ops(ops@) == Ok::<Seq<char>, Seq<char>>(run.ops@)
                &&& Some(run.newline_token) == newline
                &&& run.phase is Sampling
                &&& run.summary.rounds == 0
                &&& run.groups@ == Seq::<Seq<bool>>::empty()
                &&& run.problems@ == Seq::<Problem>::empty()
                &&& run.current is None
                &&& round_seed(setup.seed, 0, 0) matches Some(s) ==> rng_state(run.rng)
                    == seeded_state(s)
            },
    {
        if setup.min > setup.max {
            let mut m: String = "--grpo-min (".to_owned();
            push_signed(&mut m, setup.min);
            m.append(") must be <= --grpo-max (");
            push_signed(&mut m, setup.max);
            m.append(")");
            return Err(SmolError::InvalidArgument(m));
        }
        if setup.group_size < 2 {
            return Err(
                SmolError::invalid_argument(
                    "--grpo-group must be >= 2 (need a group to compute relative advantage)",
                ),
            );
        }
        let summary: GrpoSummary = GrpoSummary {
            rounds: 0,
            group_size: setup.group_size,
            mode: mode_text(setup.mode),
            correct_rates: Vec::new(),
            eval_correct_pct: Vec::new(),
            per_round_losses: Vec::new(),
        };
        if setup.rounds == 0 {
            return Ok(GrpoStart::Nothing(summary));
        }
        let ops_list: Vec<char> = match parse_ops(ops) {
            Ok(l) => l,
            Err(e) => {
                return Err(e);
            },
        };
        let newline_token: u32 = match newline {
            Some(t) => t,
            None => {
                return Err(
                    SmolError::invalid_argument(
                        "Tokenizer produced no encoding for '\\n' (GRPO needs a newline stop token)",
                    ),
                );
            },
        };
        Ok(
            GrpoStart::Run(
                GrpoRun {
                    setup,
                    ops: ops_list,
                    newline_token,
                    phase: GrpoPhase::Sampling,
                    rng: rng_for(seed_for_round(setup.seed, 0, 0)),
                    asked: 0,
                    current: None,
                    rewards: Vec::new(),
                    total_rewards: 0,
                    total_samples: 0,
                    steps_taken: 0,
                    summary,
                    groups: Ghost(Seq::empty()),
                    problems: Ghost(Seq::empty()),
                },
            ),
        )
    }

    /// Whether another completion of the current problem is wanted.
    pub fn wants_sample(&self) -> (r: bool)
        ensures
            r == self.wants(),
            r <==> self.phase is Sampling && self.current is Some,
    {
        matches!(self.phase, GrpoPhase::Sampling) && self.current.is_some()
    }

    /// Draws the next problem of the round, or `None` when all were drawn and
    /// the round is to be evaluated.
    pub fn next_problem(&mut self) -> (r: Option<Problem>)
        requires
            old(self).well_formed(),
            old(self).phase is Sampling,
            !old(self).wants(),
        ensures
            final(self).well_formed(),
            final(self).same_setup(old(self)),
            final(self).summary == old(self).summary,
            final(self).groups == old(self).groups,
            final(self).current == r,
            final(self).steps_taken == old(self).steps_taken,
            match r {
                None => old(self).asked == old(self).setup.prompts_per_round && final(self).rng
                    == old(self).rng && final(self).phase is Evaluating && final(self).problems
                    == old(self).problems,
                Some(p) => {
                    &&& final(self).problems@ == old(self).problems@.push(p)
                    &&& old(self).asked < old(self).setup.prompts_per_round
                    &&& final(self).phase is Sampling
                    &&& final(self).rewards@ == Seq::<bool>::empty()
                    &&& (p, rng_state(final(self).rng)) == drawn_problem(
                        rng_state(old(self).rng),
                        old(self).setup.min,
                        old(self).setup.max,
                        old(self).ops@,
                    )
                },
            },
    {
        if self.asked == self.setup.prompts_per_round {
            self.phase = GrpoPhase::Evaluating;
            return None;
        }
        let p: Problem = draw_problem(&mut self.rng, self.setup.min, self.setup.max, &self.ops);
        self.current = Some(p);
        self.rewards = Vec::new();
        self.asked = self.asked + 1;
        proof {
            self.problems@ = self.problems@.push(p);
        }
        Some(p)
    }

    /// Rewards a completion of the current problem: a clean right answer, or
    /// none. The last completion of a group completes it, and the plan says
    /// whether the policy is to move by it.
    pub fn reward(&mut self, completion: &str) -> (plan: Option<GroupPlan>)
        requires
            old(self).well_formed(),
            old(self).wants(),
        ensures
            final(self).well_formed(),
            final(self).same_setup(old(self)),
            final(self).summary == old(self).summary,
            final(self).rng == old(self).rng,
            final(self).asked == old(self).asked,
            final(self).steps_taken == old(self).steps_taken,
            final(self).problems == old(self).problems,
            final(self).rewards@ == old(self).rewards@.push(
                clean_answer(completion@, old(self).current->0.answer()),
            ),
            plan is Some <==> final(self).rewards@.len() == old(self).setup.group_size,
            plan is None ==> final(self).groups == old(self).groups && final(self).current
                == old(self).current && final(self).phase is Sampling,
            plan matches Some(what) ==> {
                &&& final(self).groups@ == old(self).groups@.push(final(self).rewards@)
                &&& what == if is_uniform(final(self).rewards@) {
                    GroupPlan::Skip
                } else {
                    GroupPlan::Step(old(self).setup.mode)
                }
                &&& final(self).phase == if is_uniform(final(self).rewards@) {
                    GrpoPhase::Sampling
                } else {
                    GrpoPhase::Stepping
                }
                &&& final(self).current is None
            },
    {
        let p: Problem = match self.current {
            Some(p) => p,
            None => {
                return None;
            },
        };
        let r: bool = is_clean_answer(completion, p.true_answer());
        self.rewards.push(r);
        if self.rewards.len() < self.setup.group_size {
            return None;
        }
        let ghost g = self.rewards@;
        proof {
            let n = self.groups@.len();
            let size = self.setup.group_size as nat;
            let all = self.setup.prompts_per_round as nat;
            lemma_groups_push(self.groups@, g);
            lemma_rewards_bound(self.groups@, size);
            lemma_reward_sum(g);
            assert((n + 1) * size <= all * size) by (nonlinear_arith)
                requires
                    n + 1 <= all,
            ;
            assert((n + 1) * size == n * size + size) by (nonlinear_arith);
            let more = self.groups@.push(g);
            assert forall|i: int| 0 <= i < more.len() implies (#[trigger] more[i]).len() == size by {
                if i < n {
                    assert(more[i] == self.groups@[i]);
                }
            }
            lemma_rewards_bound(more, size);
        }
        let won: usize = count_rewards(&self.rewards);
        self.total_rewards = self.total_rewards + won;
        self.total_samples = self.total_samples + self.setup.group_size;
        self.current = None;
        let uniform: bool = uniform_rewards(&self.rewards);
        proof {
            self.groups@ = self.groups@.push(g);
        }
        if uniform {
            Some(GroupPlan::Skip)
        } else {
            self.phase = GrpoPhase::Stepping;
            Some(GroupPlan::Step(self.setup.mode))
        }
    }

    /// Takes note that the current group is done with, and whether a step was
    /// taken for it. A step counts whatever its loss, zero too; none is taken
    /// for a group whose completions leave nothing to learn from.
    pub fn stepped(&mut self, taken: bool)
        requires
            old(self).well_formed(),
            old(self).phase is Stepping,
        ensures
            final(self).well_formed(),
            final(self).same_setup(old(self)),
            final(self).phase is Sampling,
            final(self).summary == old(self).summary,
            final(self).groups == old(self).groups,
            final(self).rng == old(self).rng,
            final(self).asked == old(self).asked,
            final(self).current is None,
            final(self).problems == old(self).problems,
            final(self).steps_taken == old(self).steps_taken + if taken {
                1int
            } else {
                0
            },
    {
        proof {
            lemma_rewards_bound(self.groups@, self.setup.group_size as nat);
        }
        if taken {
            self.steps_taken = self.steps_taken + 1;
        }
        self.phase = GrpoPhase::Sampling;
    }

    /// The seed of the evaluation of this round.
    pub fn eval_seed(&self) -> (r: Option<u64>)
        ensures
            r == round_seed(self.setup.seed, self.summary.rounds as int, 1),
    {
        seed_for_round(self.setup.seed, self.summary.rounds, 1)
    }

    /// Takes the mean loss of the steps that were taken and the evaluation of
    /// this round, closes it and opens the next one. The loss, which may be
    /// zero, counts only where a step was taken. Returns the trajectory so
    /// far, which is the whole one after the last round.
    pub fn evaluated(&mut self, mean_loss: u32, correct: usize, total: usize) -> (partial:
        GrpoSummary)
        requires
            old(self).well_formed(),
            old(self).phase is Evaluating,
        ensures
            final(self).well_formed(),
            final(self).same_setup(old(self)),
            partial.well_formed(old(self).round_samples()),
            partial.rounds == old(self).summary.rounds + 1,
            partial.group_size == old(self).setup.group_size,
            partial.mode@ == mode_name(old(self).setup.mode),
            partial.correct_rates@ == old(self).summary.correct_rates@.push(
                Ratio {
                    part: rewards_of(old(self).groups@) as usize,
                    whole: old(self).round_samples() as usize,
                },
            ),
            partial.eval_correct_pct@ == old(self).summary.eval_correct_pct@.push(
                Ratio { part: correct, whole: total },
            ),
            partial.per_round_losses@ == old(self).summary.per_round_losses@.push(
                if old(self).steps_taken > 0 {
                    Some(mean_loss)
                } else {
                    None
                },
            ),
            final(self).summary.rounds == partial.rounds,
            final(self).summary.correct_rates@ == partial.correct_rates@,
            final(self).summary.eval_correct_pct@ == partial.eval_correct_pct@,
            final(self).summary.per_round_losses@ == partial.per_round_losses@,
            final(self).phase == if partial.rounds == old(self).setup.rounds {
                GrpoPhase::Done
            } else {
                GrpoPhase::Sampling
            },
            final(self).phase is Sampling ==> {
                &&& final(self).groups@ == Seq::<Seq<bool>>::empty()
                &&& final(self).problems@ == Seq::<Problem>::empty()
                &&& final(self).current is None
                &&& final(self).steps_taken == 0
                &&& round_seed(old(self).setup.seed, partial.rounds as int, 0) matches Some(s)
                    ==> rng_state(final(self).rng) == seeded_state(s)
            },
    {
        proof {
            lemma_rewards_bound(self.groups@, self.setup.group_size as nat);
        }
        self.summary.correct_rates.push(
            Ratio { part: self.total_rewards, whole: self.total_samples },
        );
        self.summary.eval_correct_pct.push(Ratio { part: correct, whole: total });
        self.summary.per_round_losses.push(
            if self.steps_taken > 0 {
                Some(mean_loss)
            } else {
                None
            },
        );
        self.summary.rounds = self.summary.rounds + 1;
        proof {
            let a = old(self).summary.correct_rates@;
            let b = self.summary.correct_rates@;
            assert forall|i: int| 0 <= i < b.len() implies (#[trigger] b[i]).whole
                == self.round_samples() && b[i].part <= self.round_samples() by {
                if i < a.len() {
                    assert(b[i] == a[i]);
                }
            }
        }
        if self.summary.rounds == self.setup.rounds {
            self.phase = GrpoPhase::Done;
        } else {
            self.phase = GrpoPhase::Sampling;
            self.rng = rng_for(seed_for_round(self.setup.seed, self.summary.rounds, 0));
            self.asked = 0;
            self.total_rewards = 0;
            self.total_samples = 0;
            self.steps_taken = 0;
            proof {
                self.groups@ = Seq::empty();
                self.problems@ = Seq::empty();
            }
        }
        GrpoSummary {
            rounds: self.summary.rounds,
            group_size: self.summary.group_size,
            mode: self.summary.mode.clone(),
            correct_rates: copy_list(&self.summary.correct_rates),
            eval_correct_pct: copy_list(&self.summary.eval_correct_pct),
            per_round_losses: copy_list(&self.summary.per_round_losses),
        }
    }
}

fn count_rewards(rewards: &Vec<bool>) -> (r: usize)
    ensures
        r == reward_sum(rewards@),
{
    let mut n: usize = 0;
    let mut i: usize = 0;
    while i < rewards.len()
        invariant
            i <= rewards.len(),
            n <= i,
            n == reward_sum(rewards@.take(i as int)),
        decreases rewards.len() - i,
    {
        proof {
            assert(rewards@.take(i + 1).drop_last() =~= rewards@.take(i as int));
        }
        if rewards[i] {
            n += 1;
        }
        i += 1;
    }
    assert(rewards@.take(i as int) =~= rewards@);
    n
}

/// A run starts unless its range is empty or its groups have fewer than two
/// completions; with rounds to run it also needs an operator list that can be
/// read and a token for a newline, and is told of the first thing that is wrong.
pub proof fn law_what_stops_a_run(setup: GrpoSetup, newline: Option<u32>, ops: Seq<char>)
    ensures
        ({
            let e = grpo_start_error(setup, newline, ops);
            let ranged = setup.min <= setup.max;
            &&& e is None <==> ranged && setup.group_size >= 2 && (setup.rounds == 0 || (
            newline is Some && parsed_ops(ops) is Ok))
            &&& !ranged ==> e == Some(
                ErrorView::InvalidArgument(
                    "--grpo-min ("@ + signed_decimal(setup.min as int)
                        + ") must be <= --grpo-max ("@ + signed_decimal(setup.max as int) + ")"@,
                ),
            )
            &&& ranged && setup.group_size < 2 ==> e == Some(
                ErrorView::InvalidArgument(
                    "--grpo-group must be >= 2 (need a group to compute relative advantage)"@,
                ),
            )
            &&& ranged && setup.group_size >= 2 && setup.rounds > 0 ==> match parsed_ops(ops) {
                Err(m) => e == Some(ErrorView::InvalidArgument(m)),
                Ok(_) => newline is None ==> e == Some(
                    ErrorView::InvalidArgument(
                        "Tokenizer produced no encoding for '\\n' (GRPO needs a newline stop token)"@,
                    ),
                ),
            }
        }),
{
}

/// The modes are called `lite` and `full`, and a round has as many completions as
/// its problems have in all.
pub proof fn law_modes_and_rounds(run: GrpoRun)
    ensures
        mode_name(GrpoMode::Lite) == "lite"@,
        mode_name(GrpoMode::Full) == "full"@,
        run.round_samples() == run.setup.prompts_per_round * run.setup.group_size,
{
}

} // verus!
