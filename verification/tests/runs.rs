use smolgpt::args::GrpoMode;
use smolgpt::error::SmolError;
use smolgpt::grpo::default_grpo_mode;
use smolgpt::grpo::mode_text;
use smolgpt::grpo::uniform_rewards;
use smolgpt::grpo::GroupPlan;
use smolgpt::grpo::GrpoPhase;
use smolgpt::grpo::GrpoRun;
use smolgpt::grpo::GrpoSetup;
use smolgpt::grpo::GrpoStart;
use smolgpt::list::Ratio;
use smolgpt::problem::Problem;
use smolgpt::rft::pad_tokens;
use smolgpt::rft::seed_for_round;
use smolgpt::rft::RftPhase;
use smolgpt::rft::RftRun;
use smolgpt::rft::RftSetup;
use smolgpt::rft::RftStart;
use smolgpt::rft::DATASET_SEED_OFFSET;
use smolgpt::training::should_snapshot;
use smolgpt::training::TrainRun;
use smolgpt::training::MIN_SNAPSHOT_GAP_EPOCHS;

const MIN_SNAPSHOT_REL_IMPROVEMENT: f32 = 0.005;

fn snapshot(epoch: usize, smoothed: f32, last_epoch: Option<usize>, last_loss: f32) -> bool {
    let denom = last_loss.abs().max(1e-9);
    let enough = (last_loss - smoothed) / denom >= MIN_SNAPSHOT_REL_IMPROVEMENT;
    should_snapshot(epoch, last_epoch, enough)
}

#[test]
fn test_should_snapshot_always_fires_first_time() {
    assert!(snapshot(1, 100.0, None, f32::MAX));
    assert!(snapshot(1, 0.0001, None, f32::MAX));
    assert!(should_snapshot(1, None, false));
}

#[test]
fn test_should_snapshot_blocks_on_epoch_gap() {
    let last_epoch = 100;
    let last_loss = 1.0;
    assert!(!snapshot(last_epoch + MIN_SNAPSHOT_GAP_EPOCHS - 1, 0.1, Some(last_epoch), last_loss));
    assert!(snapshot(last_epoch + MIN_SNAPSHOT_GAP_EPOCHS, 0.1, Some(last_epoch), last_loss));
}

#[test]
fn test_should_snapshot_blocks_on_insufficient_relative_improvement() {
    let last_epoch = 100;
    let next_epoch = last_epoch + MIN_SNAPSHOT_GAP_EPOCHS;
    let last_loss = 1.0;
    assert!(!snapshot(next_epoch, 0.999, Some(last_epoch), last_loss));
    assert!(snapshot(next_epoch, 0.99, Some(last_epoch), last_loss));
}

#[test]
fn test_should_snapshot_requires_both_conditions() {
    let last_epoch = 100;
    let last_loss = 1.0;
    assert!(!snapshot(last_epoch + MIN_SNAPSHOT_GAP_EPOCHS, 0.999, Some(last_epoch), last_loss));
    assert!(!snapshot(last_epoch + 1, 0.5, Some(last_epoch), last_loss));
    assert!(snapshot(last_epoch + MIN_SNAPSHOT_GAP_EPOCHS, 0.5, Some(last_epoch), last_loss));
}

#[test]
fn training_runs_all_epochs_without_patience() {
    let mut run = TrainRun::start(25, 0);
    let mut checkpoints = Vec::new();
    while run.wants_epoch() {
        let n = run.losses.len() as u32;
        if let Some(o) = run.epoch_done(n) {
            assert!(!o.early_stopped);
            checkpoints.push(o.epochs_run);
        }
        assert!(run.recent_losses().len() <= 20);
        run.judge(false);
    }
    let o = run.finish();
    assert_eq!(checkpoints, vec![10, 20]);
    assert_eq!(o.epochs_run, 25);
    assert_eq!(o.final_loss, 24);
    assert!(!o.early_stopped);
    assert_eq!(o.losses.len(), 25);
}

#[test]
fn training_stops_when_it_stalls() {
    let mut run = TrainRun::start(100, 3);
    for improved in [true, false, false, true, false, false, false] {
        assert!(run.wants_epoch());
        run.epoch_done(1);
        run.judge(improved);
    }
    assert!(!run.wants_epoch());
    let o = run.finish();
    assert!(o.early_stopped);
    assert_eq!(o.epochs_run, 7);
}

#[test]
fn snapshots_are_spaced() {
    let mut run = TrainRun::start(120, 0);
    let mut taken = Vec::new();
    while run.wants_epoch() {
        run.epoch_done(0);
        if run.new_best(true) {
            taken.push(run.losses.len());
        }
        run.judge(true);
    }
    assert_eq!(taken, vec![1, 26, 51, 76, 101]);
}

#[test]
fn no_epochs_give_an_empty_outcome() {
    let run = TrainRun::start(0, 5);
    assert!(!run.wants_epoch());
    let o = run.finish();
    assert_eq!((o.epochs_run, o.final_loss), (0, 0));
}

#[test]
fn rounds_have_seeds_of_their_own() {
    assert_eq!(seed_for_round(None, 3, 1), None);
    assert_eq!(seed_for_round(Some(42), 0, 0), Some(42));
    assert_ne!(seed_for_round(Some(42), 1, 0), seed_for_round(Some(42), 0, 0));
    assert_eq!(
        seed_for_round(Some(u64::MAX), 0, 1),
        Some(u64::MAX.wrapping_add(1))
    );
    assert_eq!(
        seed_for_round(Some(5), 0, DATASET_SEED_OFFSET),
        Some(5u64.wrapping_add(DATASET_SEED_OFFSET))
    );
}

#[test]
fn short_corpora_are_repeated() {
    assert_eq!(pad_tokens(vec![1, 2, 3], 4), vec![1, 2, 3, 1, 2, 3]);
    assert_eq!(pad_tokens(vec![1, 2, 3], 3), vec![1, 2, 3, 1, 2, 3]);
    assert_eq!(pad_tokens(vec![1, 2, 3], 2), vec![1, 2, 3]);
}

fn rft(rounds: usize, prompts: usize, samples: usize, seed: Option<u64>) -> RftSetup {
    RftSetup {
        rounds,
        prompts_per_round: prompts,
        samples_per_prompt: samples,
        min: 0,
        max: 9,
        seed,
    }
}

fn right(p: &Problem) -> String {
    format!("{}\n", p.true_answer())
}

#[test]
fn winners_are_the_right_lines() {
    let mut run = match RftRun::start(rft(2, 5, 3, Some(7)), Some(0), "+,-").unwrap() {
        RftStart::Run(r) => r,
        RftStart::Nothing(_) => panic!("two rounds were asked for"),
    };
    let mut corpora = Vec::new();
    for round in 0..2 {
        let mut want = String::new();
        let mut i = 0;
        while let Some(p) = run.next_problem() {
            let mut tries = 0;
            while run.wants_sample() {
                tries += 1;
                let hit = i % 2 == 0 && tries == 2;
                let text = if hit { right(&p) } else { "nonsense".to_string() };
                assert_eq!(run.offer(&text), hit);
            }
            if i % 2 == 0 {
                assert_eq!(tries, 2);
                want.push_str(&p.fact_line());
            } else {
                assert_eq!(tries, 3);
            }
            i += 1;
        }
        assert_eq!(i, 5);
        let corpus = run.end_sampling();
        assert_eq!(corpus, want);
        corpora.push(corpus);
        assert_eq!(run.phase, RftPhase::Training);
        assert_eq!(
            run.dataset_seed(),
            seed_for_round(Some(7), round, DATASET_SEED_OFFSET)
        );
        run.trained(0.5f32.to_bits());
        assert_eq!(run.eval_seed(), seed_for_round(Some(7), round, 1));
        let partial = run.evaluated(4, 20);
        assert_eq!(partial.rounds, round + 1);
        assert_eq!(partial.winner_counts[round], 3);
        assert_eq!(partial.winner_rates[round], Ratio { part: 3, whole: 5 });
        assert_eq!(partial.eval_correct_pct[round], Ratio { part: 4, whole: 20 });
        assert_eq!(partial.per_round_sft_final_losses[round], Some(0.5f32.to_bits()));
    }
    assert_eq!(run.phase, RftPhase::Done);
    assert_ne!(corpora[0], corpora[1]);
}

#[test]
fn a_round_without_winners_is_not_trained() {
    let mut run = match RftRun::start(rft(1, 2, 2, None), Some(0), "+").unwrap() {
        RftStart::Run(r) => r,
        RftStart::Nothing(_) => panic!("a round was asked for"),
    };
    while run.next_problem().is_some() {
        while run.wants_sample() {
            assert!(!run.offer("x"));
        }
    }
    assert_eq!(run.end_sampling(), "");
    assert_eq!(run.phase, RftPhase::Evaluating);
    let s = run.evaluated(0, 0);
    assert_eq!(s.per_round_sft_final_losses, vec![None]);
    assert_eq!(run.phase, RftPhase::Done);
}

#[test]
fn rft_runs_that_cannot_start() {
    let mut s = rft(1, 2, 2, None);
    s.min = 5;
    s.max = 3;
    match RftRun::start(s, Some(0), "+") {
        Err(SmolError::InvalidArgument(m)) => {
            assert_eq!(m, "--rft-min (5) must be <= --rft-max (3)")
        }
        _ => panic!("an empty range must be refused"),
    }
    assert!(matches!(
        RftRun::start(rft(1, 2, 2, None), None, "+"),
        Err(SmolError::InvalidArgument(_))
    ));
    assert!(matches!(
        RftRun::start(rft(1, 2, 2, None), Some(1), "?"),
        Err(SmolError::InvalidArgument(_))
    ));
    assert!(matches!(RftRun::start(rft(0, 2, 2, None), None, "?"), Ok(RftStart::Nothing(_))));
}

fn grpo(rounds: usize, prompts: usize, group: usize) -> GrpoSetup {
    GrpoSetup {
        rounds,
        prompts_per_round: prompts,
        group_size: group,
        min: 0,
        max: 9,
        mode: GrpoMode::Full,
        seed: Some(3),
    }
}

#[test]
fn only_mixed_groups_move_the_policy() {
    let mut run = match GrpoRun::start(grpo(1, 3, 2), Some(0), "+").unwrap() {
        GrpoStart::Run(r) => r,
        GrpoStart::Nothing(_) => panic!("a round was asked for"),
    };
    let mut plans = Vec::new();
    let mut i = 0;
    while let Some(p) = run.next_problem() {
        let mut k = 0;
        while run.wants_sample() {
            let good = i == 1 || (i == 2 && k == 0);
            let text = if good { right(&p) } else { "x".to_string() };
            if let Some(plan) = run.reward(&text) {
                plans.push(plan);
                if run.phase == GrpoPhase::Stepping {
                    run.stepped(true);
                }
            }
            k += 1;
        }
        assert_eq!(k, 2);
        i += 1;
    }
    assert_eq!(plans, vec![GroupPlan::Skip, GroupPlan::Skip, GroupPlan::Step(GrpoMode::Full)]);
    assert_eq!(run.eval_seed(), seed_for_round(Some(3), 0, 1));
    let s = run.evaluated(0.25f32.to_bits(), 7, 10);
    assert_eq!(s.correct_rates, vec![Ratio { part: 3, whole: 6 }]);
    assert_eq!(s.eval_correct_pct, vec![Ratio { part: 7, whole: 10 }]);
    assert_eq!(s.per_round_losses, vec![Some(0.25f32.to_bits())]);
    assert_eq!(s.mode, "full");
    assert_eq!(s.group_size, 2);
    assert_eq!(run.phase, GrpoPhase::Done);
}

#[test]
fn a_round_that_moved_nothing_has_no_loss() {
    let mut run = match GrpoRun::start(grpo(2, 1, 2), Some(0), "-").unwrap() {
        GrpoStart::Run(r) => r,
        GrpoStart::Nothing(_) => panic!("rounds were asked for"),
    };
    for _ in 0..2 {
        while run.next_problem().is_some() {
            while run.wants_sample() {
                run.reward("");
            }
        }
        run.evaluated(1, 0, 5);
    }
    assert_eq!(run.summary.per_round_losses, vec![None, None]);
    assert_eq!(run.phase, GrpoPhase::Done);
}

#[test]
fn grpo_runs_that_cannot_start() {
    let mut s = grpo(1, 1, 2);
    s.min = 1;
    s.max = 0;
    assert!(matches!(GrpoRun::start(s, Some(0), "+"), Err(SmolError::InvalidArgument(_))));
    match GrpoRun::start(grpo(1, 1, 1), Some(0), "+") {
        Err(SmolError::InvalidArgument(m)) => assert_eq!(
            m,
            "--grpo-group must be >= 2 (need a group to compute relative advantage)"
        ),
        _ => panic!("a group of one must be refused"),
    }
    assert!(matches!(
        GrpoRun::start(grpo(1, 1, 2), None, "+"),
        Err(SmolError::InvalidArgument(_))
    ));
    assert!(matches!(
        GrpoRun::start(grpo(1, 1, 2), Some(0), "*"),
        Err(SmolError::InvalidArgument(_))
    ));
    assert!(matches!(GrpoRun::start(grpo(0, 1, 2), None, "*"), Ok(GrpoStart::Nothing(_))));
}

#[test]
fn uniform_groups() {
    assert!(uniform_rewards(&vec![]));
    assert!(uniform_rewards(&vec![true, true]));
    assert!(uniform_rewards(&vec![false, false, false]));
    assert!(!uniform_rewards(&vec![false, true]));
}

#[test]
fn mode_names() {
    assert_eq!(mode_text(GrpoMode::Lite), "lite");
    assert_eq!(mode_text(GrpoMode::Full), "full");
    assert_eq!(default_grpo_mode(), "lite");
}

#[test]
fn a_step_without_loss_is_still_a_step() {
    for (taken, want) in [(true, Some(0)), (false, None)] {
        let mut run = match GrpoRun::start(grpo(1, 1, 2), Some(0), "+").unwrap() {
            GrpoStart::Run(r) => r,
            GrpoStart::Nothing(_) => panic!("a round was asked for"),
        };
        while let Some(p) = run.next_problem() {
            assert!((0..=9).contains(&p.a) && (0..=9).contains(&p.b) && p.op == '+');
            run.reward(&right(&p));
            assert_eq!(run.reward("x"), Some(GroupPlan::Step(GrpoMode::Full)));
            run.stepped(taken);
        }
        assert_eq!(run.evaluated(0.0f32.to_bits(), 0, 5).per_round_losses, vec![want]);
    }
}

#[test]
fn start_errors_come_before_any_arithmetic() {
    let mut s = grpo(1, usize::MAX, 1);
    s.min = i64::MIN;
    s.max = i64::MAX;
    match GrpoRun::start(s, Some(0), "+") {
        Err(SmolError::InvalidArgument(m)) => assert_eq!(
            m,
            "--grpo-group must be >= 2 (need a group to compute relative advantage)"
        ),
        _ => panic!("a group of one must be refused"),
    }
    s.group_size = usize::MAX;
    assert!(matches!(GrpoRun::start(s, None, "+"), Err(SmolError::InvalidArgument(_))));
    s.min = 1;
    s.max = 0;
    match GrpoRun::start(s, Some(0), "+") {
        Err(SmolError::InvalidArgument(m)) => {
            assert_eq!(m, "--grpo-min (1) must be <= --grpo-max (0)")
        }
        _ => panic!("an empty range must be refused"),
    }
    let mut s = rft(1, 2, 2, None);
    s.min = i64::MIN;
    s.max = i64::MAX;
    assert!(matches!(RftRun::start(s, None, "-"), Err(SmolError::InvalidArgument(_))));
}
