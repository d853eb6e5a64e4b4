use smolgpt::args::EvalMode;
use smolgpt::args::ModelType;
use smolgpt::args::TokenizerType;
use smolgpt::error::SmolError;
use smolgpt::eval::EvalReport;
use smolgpt::record::clock_seconds;
use smolgpt::record::generate_note;
use smolgpt::record::now_unix;
use smolgpt::record::resolve_eval_range;
use smolgpt::record::unix_timestamp;
use smolgpt::record::ModelEntry;
use smolgpt::record::ModelRecord;
use smolgpt::record::TrainingMeta;
use smolgpt::registry::jacobian_record;
use smolgpt::registry::missing_columns;
use smolgpt::registry::Registry;
use smolgpt::registry::TrainingUpdate;
use smolgpt::rows::EvalGridSummary;
use smolgpt::rows::EvalRecord;
use smolgpt::rows::JacobianLensSummary;
use smolgpt::rows::JacobianRow;
use smolgpt::schedule::parse_heads_schedule_column;
use smolgpt::training::TrainOutcome;

fn model(id: &str, lo: i64, hi: i64, now: i64) -> ModelRecord {
    ModelRecord {
        id: id.to_string(),
        path: format!("{id}.bin"),
        model_type: "gpt".to_string(),
        tokenizer: "char".to_string(),
        vocab_size: 14,
        block_size: 16,
        hidden_size: 16,
        num_heads: 4,
        num_blocks: 2,
        heads_schedule: "4,4".to_string(),
        aligned_windows: None,
        dataset: "data/arithmetic.txt".to_string(),
        dataset_name: "arithmetic".to_string(),
        eval_min: lo,
        eval_max: hi,
        eval_samples: 200,
        note: "n".to_string(),
        params_estimate: 7300,
        base_model_id: None,
        created_at: now,
        updated_at: now,
    }
}

fn register_model_with_range(reg: &mut Registry, id: &str, lo: i64, hi: i64) {
    reg.register_model(&model(id, lo, hi, now_unix()));
}

fn report_with_correct(correct: i64) -> EvalReport {
    EvalReport {
        total: 200,
        correct: correct as usize,
        correct_plus: correct as usize,
        total_plus: 200,
        correct_minus: 0,
        total_minus: 0,
        by_digits: [(correct as usize, 200), (0, 0), (0, 0), (0, 0)],
        examples: Vec::new(),
    }
}

fn update(epochs_run: usize, early_stopped: bool, loss: f64, losses: &str, rft: &str) -> TrainingUpdate {
    TrainingUpdate {
        epochs_run,
        early_stopped,
        final_loss: loss.to_bits(),
        loss_trajectory_json: losses.to_string(),
        rft_summary_json: rft.to_string(),
        train_correct: None,
        train_total: None,
        prompt_min: None,
        prompt_max: None,
        prompt_ops: None,
    }
}

/// What opening a stored registry does: columns that are missing are added, and
/// variants are linked to their bases.
fn reopen(mut reg: Registry, columns: &mut Vec<String>, wanted: &[&str]) -> Registry {
    let wanted: Vec<String> = wanted.iter().map(|s| s.to_string()).collect();
    let missing = missing_columns(columns, &wanted);
    for c in missing {
        assert!(!columns.contains(&c), "a column must not be added twice");
        columns.push(c);
    }
    reg.backfill_base_model_ids();
    assert!(reg.is_consistent());
    reg
}

#[test]
fn test_generate_note_no_early_stop() {
    let note = generate_note(
        "gpt",
        77582,
        32,
        32,
        8,
        6,
        "char",
        2000,
        "arithmetic-1digit.txt",
        Some(42),
        false,
        &vec![8, 8, 8, 8, 8, 8],
    );
    assert!(note.contains("gpt 78K params"));
    assert!(note.contains("block=32 hidden=32 heads=8 blocks=6"));
    assert!(note.contains("char tokenizer"));
    assert!(note.contains("trained 2000 epochs on arithmetic-1digit.txt"));
    assert!(note.contains("seed 42"));
    assert!(!note.contains("early-stopped"));
    assert!(!note.contains("heads-schedule"));
}

#[test]
fn test_generate_note_with_early_stop() {
    let note = generate_note(
        "gpt",
        7300,
        16,
        16,
        4,
        2,
        "char",
        430,
        "arithmetic.txt",
        None,
        true,
        &vec![4, 4],
    );
    assert!(note.contains("gpt 7.3K params"));
    assert!(note.contains("seed random"));
    assert!(note.contains("early-stopped at epoch 430"));
}

#[test]
fn test_generate_note_non_uniform_schedule_appends_reload_hint() {
    let note = generate_note(
        "gpt",
        7300,
        16,
        16,
        1,
        4,
        "char",
        4000,
        "arithmetic-add-1digit.txt",
        Some(42),
        false,
        &vec![1, 1, 4, 4],
    );
    assert!(note.contains("heads-schedule=[1,1,4,4]"));
    assert!(note.contains("reload with --num-heads \"1,1,4,4\""));
}

#[test]
fn test_round_trip_register_and_list() {
    let mut reg = Registry::new();
    assert!(reg.is_empty());

    let now = now_unix();
    let mut rec = model("test-model", 0, 9, now);
    rec.path = "test.bin".to_string();
    rec.note = "test note".to_string();
    reg.register_model(&rec);
    assert!(!reg.is_empty());

    let list = reg.list_models();
    assert_eq!(list.len(), 1);
    assert_eq!(list[0].id, "test-model");
    assert_eq!(list[0].params_estimate, 7300);

    let mut rec2 = rec.clone();
    rec2.note = "updated note".to_string();
    reg.register_model(&rec2);
    let list = reg.list_models();
    assert_eq!(list.len(), 1, "re-register should not duplicate");
    assert_eq!(list[0].note, "updated note");

    let got = reg.get_model("test-model").unwrap();
    assert_eq!(got.id, "test-model");
    assert!(reg.get_model("nope").is_none());
}

#[test]
fn test_reregister_preserves_evals_and_created_at() {
    let mut reg = Registry::new();

    let now = now_unix();
    let mut rec = model("m", 0, 9, now);
    rec.note = "v1".to_string();
    reg.register_model(&rec);

    let report = EvalReport {
        total: 10,
        correct: 3,
        correct_plus: 2,
        total_plus: 5,
        correct_minus: 1,
        total_minus: 5,
        by_digits: [(3, 10), (0, 0), (0, 0), (0, 0)],
        examples: Vec::new(),
    };
    reg.record_eval("m", &report, Some(1), now);
    assert_eq!(reg.latest_eval("m").unwrap().correct, 3);

    let later = now + 60;
    let mut rec2 = rec.clone();
    rec2.note = "v2".to_string();
    rec2.updated_at = later;
    reg.register_model(&rec2);

    let list = reg.list_models();
    assert_eq!(list.len(), 1, "re-register must not duplicate");
    assert_eq!(list[0].note, "v2");
    assert_eq!(list[0].created_at, now, "created_at must be preserved");
    assert_eq!(list[0].updated_at, later, "updated_at must move forward");

    let ev = reg.latest_eval("m").unwrap();
    assert_eq!(ev.correct, 3, "eval history must survive re-register");
}

#[test]
fn test_record_and_latest_eval() {
    let mut reg = Registry::new();
    let now = now_unix();
    reg.register_model(&model("m1", 0, 9, now));

    assert!(reg.latest_eval("m1").is_none());

    let report = EvalReport {
        total: 200,
        correct: 15,
        correct_plus: 8,
        total_plus: 100,
        correct_minus: 7,
        total_minus: 100,
        by_digits: [(15, 200), (0, 0), (0, 0), (0, 0)],
        examples: Vec::new(),
    };
    reg.record_eval("m1", &report, Some(42), now);

    let latest = reg.latest_eval("m1").unwrap();
    assert_eq!(latest.model_id, "m1");
    assert_eq!(latest.correct, 15);
    assert_eq!(latest.total, 200);
    assert_eq!(latest.seed, Some(42));
}

#[test]
fn test_record_and_latest_training_sft() {
    let mut reg = Registry::new();
    assert!(reg.latest_training("nope").is_none());

    let losses = vec![7.49f32, 1.65, 1.34, 1.30, 1.24];
    let loss_json = serde_json::to_string(&losses).unwrap();
    let mut u = update(2000, false, 1.238, &loss_json, "null");
    u.train_correct = Some(42);
    u.train_total = Some(55);
    reg.upsert_training("gpt-arithmetic-add", "sft", &u, now_unix());

    let t = reg.latest_training("gpt-arithmetic-add").unwrap();
    assert_eq!(t.model_id, "gpt-arithmetic-add");
    assert_eq!(t.kind, "sft");
    assert_eq!(t.epochs_run, 2000);
    assert!(!t.early_stopped);
    assert!((f64::from_bits(t.final_loss) - 1.238).abs() < 1e-6);
    assert_eq!(t.loss_trajectory_json, loss_json);
    assert_eq!(t.rft_summary_json, "null");
    assert_eq!(t.train_correct, Some(42));
    assert_eq!(t.train_total, Some(55));
    assert_eq!(t.prompt_min, None);
    assert_eq!(t.prompt_max, None);
    assert_eq!(t.prompt_ops, None);

    let parsed: Vec<f32> = serde_json::from_str(&t.loss_trajectory_json).unwrap();
    assert_eq!(parsed, losses);
}

#[test]
fn test_record_and_latest_training_rft() {
    let mut reg = Registry::new();

    let counts: Vec<usize> = vec![706, 754, 710];
    let rates: Vec<f32> = vec![70.6, 75.4, 71.0];
    let pct: Vec<f32> = vec![9.5, 15.5, 11.0];
    let losses: Vec<Option<f32>> = vec![Some(0.512), Some(0.341), Some(0.288)];
    let summary = (3usize, counts, rates, pct, losses);
    let summary_json = serde_json::to_string(&summary).unwrap();
    let mut u = update(3, false, 0.0, "null", &summary_json);
    u.prompt_min = Some(0);
    u.prompt_max = Some(999);
    u.prompt_ops = Some("+,-".to_string());
    reg.upsert_training("gpt-arithmetic-add-rft", "rft", &u, now_unix());

    let t = reg.latest_training("gpt-arithmetic-add-rft").unwrap();
    assert_eq!(t.kind, "rft");
    assert_eq!(t.epochs_run, 3);
    assert_eq!(t.loss_trajectory_json, "null");
    let parsed: (usize, Vec<usize>, Vec<f32>, Vec<f32>, Vec<Option<f32>>) =
        serde_json::from_str(&t.rft_summary_json).unwrap();
    assert_eq!(parsed, summary);
    assert_eq!(t.prompt_min, Some(0));
    assert_eq!(t.prompt_max, Some(999));
    assert_eq!(t.prompt_ops.as_deref(), Some("+,-"));
}

#[test]
fn test_latest_training_picks_most_recent() {
    let mut reg = Registry::new();
    let now = now_unix();
    reg.upsert_training("m", "sft", &update(100, false, 5.0, "[5.0]", "null"), now);
    reg.upsert_training("m", "sft", &update(200, true, 1.2, "[1.2]", "null"), now + 1);

    let t = reg.latest_training("m").unwrap();
    assert_eq!(t.epochs_run, 200, "latest_training must pick the newer row");
    assert!(t.early_stopped);
}

#[test]
fn test_record_eval_stamps_model_range() {
    let mut reg = Registry::new();
    register_model_with_range(&mut reg, "m", 0, 9);

    reg.record_eval("m", &report_with_correct(7), Some(42), now_unix());
    let ev = reg.latest_eval("m").unwrap();
    assert_eq!(ev.eval_min, Some(0), "eval row should be stamped with model's eval_min");
    assert_eq!(ev.eval_max, Some(9), "eval row should be stamped with model's eval_max");
}

#[test]
fn test_latest_eval_filters_out_stale_range_rows() {
    let mut reg = Registry::new();
    let now = now_unix();

    register_model_with_range(&mut reg, "m", 0, 999);
    reg.record_eval("m", &report_with_correct(0), Some(1), now);

    register_model_with_range(&mut reg, "m", 0, 9);
    reg.record_eval("m", &report_with_correct(28), Some(2), now + 1);

    let smart = reg.latest_eval("m").unwrap();
    assert_eq!(smart.correct, 28, "smart latest_eval must skip stale-range row");
    assert_eq!(smart.eval_min, Some(0));
    assert_eq!(smart.eval_max, Some(9));

    let legacy = reg.latest_eval_legacy("m").unwrap();
    assert_eq!(legacy.correct, 28, "legacy latest_eval returns newest row");
}

#[test]
fn test_latest_eval_null_range_rows_match_anything() {
    let mut reg = Registry::new();
    register_model_with_range(&mut reg, "m", 0, 9);

    reg.evals.push(EvalRecord {
        id: 1,
        model_id: "m".to_string(),
        correct: 12,
        total: 200,
        correct_plus: 12,
        total_plus: 200,
        correct_minus: 0,
        total_minus: 0,
        seed: None,
        eval_min: None,
        eval_max: None,
        run_at: now_unix(),
    });
    reg.next_eval_id = 2;
    assert!(reg.is_consistent());

    let ev = reg.latest_eval("m").unwrap();
    assert_eq!(ev.correct, 12);
    assert_eq!(ev.eval_min, None, "NULL-range row should round-trip as None");
    assert_eq!(ev.eval_max, None);
}

#[test]
fn test_latest_eval_smart_returns_none_when_only_mismatched_rows_exist() {
    let mut reg = Registry::new();

    register_model_with_range(&mut reg, "m", 0, 999);
    reg.record_eval("m", &report_with_correct(0), Some(1), now_unix());

    register_model_with_range(&mut reg, "m", 0, 9);

    assert!(
        reg.latest_eval("m").is_none(),
        "smart latest_eval must hide stale-range rows when no match exists"
    );

    let legacy = reg.latest_eval_legacy("m").unwrap();
    assert_eq!(legacy.correct, 0, "legacy latest_eval ignores range filter");
}

#[test]
fn test_record_and_latest_eval_grid_round_trip() {
    let mut reg = Registry::new();
    register_model_with_range(&mut reg, "m", 0, 9);

    assert!(reg.latest_eval_grid("m").is_none());

    let report_json = r#"{"min":0,"max":9,"grids":[],"correct":12,"total":100}"#;
    reg.record_eval_grid("m", 0, 9, report_json, 12, 100, now_unix()).unwrap();

    let cached = reg.latest_eval_grid("m").unwrap();
    assert_eq!(cached.model_id, "m");
    assert_eq!(cached.eval_min, 0);
    assert_eq!(cached.eval_max, 9);
    assert_eq!(cached.correct, 12);
    assert_eq!(cached.total, 100);
    assert_eq!(cached.report_json, report_json);
}

#[test]
fn test_record_and_latest_jacobian_lens_round_trip() {
    let mut reg = Registry::new();
    register_model_with_range(&mut reg, "m", 0, 9);

    assert!(reg.latest_jacobian_lens("m").is_none());

    let results_json = r#"{"greedy_accuracy":0.9,"n_facts":55}"#;
    let plot_files = vec!["layer_accuracy.png".to_string(), "group_rank.png".to_string()];
    reg.record_jacobian_lens("m", results_json, "jacobian_lens_output/m", &plot_files, now_unix())
        .unwrap();

    let cached = reg.latest_jacobian_lens("m").unwrap();
    assert_eq!(cached.model_id, "m");
    assert_eq!(cached.results_json, results_json);
    assert_eq!(cached.plot_dir, "jacobian_lens_output/m");
    assert_eq!(cached.plot_files, plot_files);
}

#[test]
fn test_record_jacobian_lens_overwrites_in_place_not_history() {
    let mut reg = Registry::new();
    register_model_with_range(&mut reg, "m", 0, 9);
    let now = now_unix();

    reg.record_jacobian_lens("m", "{\"first\":true}", "dir1", &vec![], now).unwrap();
    reg.record_jacobian_lens("m", "{\"second\":true}", "dir2", &vec!["a.png".to_string()], now)
        .unwrap();

    let count = reg.jacobian_lens_results.iter().filter(|r| r.model_id == "m").count();
    assert_eq!(count, 1, "jacobian_lens_results should hold exactly one row per model");

    let cached = reg.latest_jacobian_lens("m").unwrap();
    assert_eq!(cached.results_json, "{\"second\":true}");
    assert_eq!(cached.plot_dir, "dir2");
    assert_eq!(cached.plot_files, vec!["a.png".to_string()]);
}

#[test]
fn test_latest_jacobian_lens_unregistered_model_returns_none() {
    let reg = Registry::new();
    assert!(reg.latest_jacobian_lens("nope").is_none());
}

#[test]
fn test_record_eval_grid_overwrites_in_place_not_history() {
    let mut reg = Registry::new();
    register_model_with_range(&mut reg, "m", 0, 9);
    let now = now_unix();

    reg.record_eval_grid("m", 0, 9, "{\"first\":true}", 1, 100, now).unwrap();
    reg.record_eval_grid("m", 0, 9, "{\"second\":true}", 2, 100, now).unwrap();

    let count = reg.eval_grids.iter().filter(|r| r.model_id == "m").count();
    assert_eq!(count, 1, "eval_grids should hold exactly one row per model");

    let cached = reg.latest_eval_grid("m").unwrap();
    assert_eq!(cached.correct, 2);
    assert_eq!(cached.report_json, "{\"second\":true}");
}

#[test]
fn test_latest_eval_grid_hides_stale_range_cache() {
    let mut reg = Registry::new();
    let now = now_unix();

    register_model_with_range(&mut reg, "m", 0, 9);
    reg.record_eval_grid("m", 0, 9, "{\"stale\":true}", 5, 100, now).unwrap();

    register_model_with_range(&mut reg, "m", 0, 19);
    assert!(
        reg.latest_eval_grid("m").is_none(),
        "latest_eval_grid must hide a cache stamped with a superseded range"
    );

    reg.record_eval_grid("m", 0, 19, "{\"fresh\":true}", 40, 400, now).unwrap();
    let cached = reg.latest_eval_grid("m").unwrap();
    assert_eq!(cached.eval_min, 0);
    assert_eq!(cached.eval_max, 19);
    assert_eq!(cached.correct, 40);
}

#[test]
fn test_latest_eval_grid_unregistered_model_returns_none() {
    let reg = Registry::new();
    assert!(reg.latest_eval_grid("nope").is_none());
}

fn meta<'a>(
    schedule: &'a Vec<usize>,
    corpus: &'a str,
    eval_min: Option<i64>,
    eval_max: Option<i64>,
    eval_mode: EvalMode,
) -> TrainingMeta<'a> {
    TrainingMeta {
        model_type: ModelType::Gpt,
        tokenizer: TokenizerType::Char,
        block_size: 16,
        hidden_size: 16,
        heads_schedule: schedule,
        num_blocks: 2,
        aligned_windows: false,
        dataset_path: corpus,
        model_path: "model.bin",
        actual_vocab_size: 14,
        eval_min,
        eval_max,
        eval_samples: 200,
        eval_mode,
        seed: Some(42),
        base_model_id: None,
    }
}

#[test]
fn test_resolve_eval_range_user_override_wins() {
    let schedule = vec![4, 4];
    let m = meta(&schedule, "corpus.txt", Some(5), Some(50), EvalMode::Smart);
    assert_eq!(resolve_eval_range(&m, Some("3+4=7\n9+9=18\n")), (5, 50));
}

#[test]
fn test_resolve_eval_range_smart_uses_corpus() {
    let schedule = vec![4, 4];
    let m = meta(&schedule, "corpus.txt", None, None, EvalMode::Smart);
    assert_eq!(resolve_eval_range(&m, Some("3+4=7\n9+9=18\n0+0=0\n")), (0, 9));
}

#[test]
fn test_resolve_eval_range_legacy_uses_default() {
    let schedule = vec![4, 4];
    let m = meta(&schedule, "corpus.txt", None, None, EvalMode::Legacy);
    assert_eq!(resolve_eval_range(&m, Some("3+4=7\n9+9=18\n")), (0, 999));
}

#[test]
fn test_resolve_eval_range_smart_falls_back_when_corpus_unreadable() {
    let schedule = vec![4, 4];
    let m = meta(&schedule, "does-not-exist.txt", None, None, EvalMode::Smart);
    assert_eq!(resolve_eval_range(&m, None), (0, 999));
}

#[test]
fn test_resolve_eval_range_partial_override_uses_corpus() {
    let schedule = vec![4, 4];
    let m = meta(&schedule, "corpus.txt", Some(2), None, EvalMode::Smart);
    assert_eq!(resolve_eval_range(&m, Some("3+4=7\n9+9=18\n0+0=0\n")), (0, 9));
}

#[test]
fn test_migrate_eval_range_columns_is_idempotent() {
    let mut columns = vec!["id".to_string(), "model_id".to_string()];
    let wanted = ["eval_min", "eval_max"];
    let reg = reopen(Registry::new(), &mut columns, &wanted);
    assert_eq!(columns.len(), 4);
    let mut reg = reopen(reg, &mut columns, &wanted);
    assert_eq!(columns.len(), 4);
    register_model_with_range(&mut reg, "m", 0, 9);
    reg.record_eval("m", &report_with_correct(1), Some(1), now_unix());
    let ev = reg.latest_eval("m").unwrap();
    assert_eq!(ev.eval_min, Some(0));
    assert_eq!(ev.eval_max, Some(9));
}

#[test]
fn test_upsert_training_replaces_in_place() {
    let mut reg = Registry::new();
    let now = now_unix();

    reg.upsert_training("m", "sft", &update(10, false, 5.0, "[5.0, 4.8]", "null"), now);
    reg.upsert_training("m", "sft", &update(20, false, 1.2, "[5.0, 4.8, 1.2]", "null"), now);

    let t = reg.latest_training("m").unwrap();
    assert_eq!(t.epochs_run, 20, "upsert must hold the SECOND call's data");
    assert!((f64::from_bits(t.final_loss) - 1.2).abs() < 1e-6);
    assert_eq!(t.loss_trajectory_json, "[5.0, 4.8, 1.2]");

    let count = reg.trainings.iter().filter(|t| t.model_id == "m" && t.kind == "sft").count();
    assert_eq!(count, 1, "upsert_training must not duplicate rows");
}

#[test]
fn test_upsert_training_distinct_kinds_coexist() {
    let mut reg = Registry::new();
    let now = now_unix();

    reg.upsert_training("m", "sft", &update(2000, false, 1.2, "[1.2]", "null"), now);
    reg.upsert_training("m", "rft", &update(3, false, 0.5, "null", "{\"rounds\":3}"), now);

    let count = reg.trainings.iter().filter(|t| t.model_id == "m").count();
    assert_eq!(count, 2, "distinct kinds must coexist as separate rows");

    reg.upsert_training("m", "sft", &update(4000, true, 0.9, "[0.9]", "null"), now);
    let count = reg.trainings.iter().filter(|t| t.model_id == "m").count();
    assert_eq!(count, 2, "upserting one kind must not duplicate the other");
}

#[test]
fn test_base_model_id_column_migration_is_idempotent() {
    let mut columns = vec!["id".to_string()];
    let reg = reopen(Registry::new(), &mut columns, &["base_model_id"]);
    let mut reg = reopen(reg, &mut columns, &["base_model_id"]);
    assert_eq!(columns.len(), 2);
    register_model_with_range(&mut reg, "m", 0, 9);
    let m = reg.get_model("m").unwrap();
    assert_eq!(m.base_model_id, None, "base model has base_model_id NULL");
}

#[test]
fn test_heads_schedule_column_migration_is_idempotent() {
    let mut columns = vec!["id".to_string()];
    let reg = reopen(Registry::new(), &mut columns, &["heads_schedule"]);
    let mut reg = reopen(reg, &mut columns, &["heads_schedule"]);
    assert_eq!(columns.len(), 2);
    register_model_with_range(&mut reg, "m", 0, 9);
    let m = reg.get_model("m").unwrap();
    assert_eq!(m.heads_schedule, "4,4");
}

#[test]
fn test_aligned_windows_column_migration_is_idempotent() {
    let mut columns = vec!["id".to_string()];
    let reg = reopen(Registry::new(), &mut columns, &["aligned_windows"]);
    let mut reg = reopen(reg, &mut columns, &["aligned_windows"]);
    assert_eq!(columns.len(), 2);

    register_model_with_range(&mut reg, "unknown-model", 0, 9);
    let m = reg.get_model("unknown-model").unwrap();
    assert_eq!(m.aligned_windows, None);

    let mut aligned_rec = model("aligned-model", 0, 9, now_unix());
    aligned_rec.aligned_windows = Some(true);
    reg.register_model(&aligned_rec);
    let m = reg.get_model("aligned-model").unwrap();
    assert_eq!(m.aligned_windows, Some(true));

    aligned_rec.aligned_windows = Some(false);
    reg.register_model(&aligned_rec);
    let m = reg.get_model("aligned-model").unwrap();
    assert_eq!(m.aligned_windows, Some(false));
}

#[test]
fn test_prompt_range_columns_migration_is_idempotent() {
    let mut columns = vec!["id".to_string(), "prompt_min".to_string()];
    let wanted = ["prompt_min", "prompt_max", "prompt_ops"];
    let reg = reopen(Registry::new(), &mut columns, &wanted);
    assert_eq!(columns, vec!["id", "prompt_min", "prompt_max", "prompt_ops"]);
    let mut reg = reopen(reg, &mut columns, &wanted);
    assert_eq!(columns.len(), 4);
    let now = now_unix();

    reg.upsert_training("m", "sft", &update(10, false, 1.0, "[1.0]", "null"), now);
    let t = reg.latest_training("m").unwrap();
    assert_eq!(t.prompt_min, None);
    assert_eq!(t.prompt_max, None);
    assert_eq!(t.prompt_ops, None);

    let mut u = update(3, false, 0.1, "null", "{\"rounds\":3}");
    u.prompt_min = Some(10);
    u.prompt_max = Some(500);
    u.prompt_ops = Some("+".to_string());
    reg.upsert_training("m2", "grpo", &u, now);
    let t2 = reg.latest_training("m2").unwrap();
    assert_eq!(t2.prompt_min, Some(10));
    assert_eq!(t2.prompt_max, Some(500));
    assert_eq!(t2.prompt_ops.as_deref(), Some("+"));
}

#[test]
fn test_register_and_read_back_base_model_id() {
    let mut reg = Registry::new();
    register_model_with_range(&mut reg, "base", 0, 9);

    let mut variant = model("base-rft", 0, 9, now_unix());
    variant.note = "variant".to_string();
    variant.base_model_id = Some("base".to_string());
    reg.register_model(&variant);

    let got = reg.get_model("base-rft").unwrap();
    assert_eq!(got.base_model_id, Some("base".to_string()));

    let base = reg.get_model("base").unwrap();
    assert_eq!(base.base_model_id, None);
}

#[test]
fn test_backfill_links_legacy_variant_rows_to_their_base() {
    let mut reg = Registry::new();
    register_model_with_range(&mut reg, "gpt-arithmetic-add", 0, 9);
    register_model_with_range(&mut reg, "gpt-arithmetic-add-rft", 0, 9);

    let v = reg.get_model("gpt-arithmetic-add-rft").unwrap();
    assert_eq!(v.base_model_id, None);

    let mut columns = Vec::new();
    let reg = reopen(reg, &mut columns, &[]);
    let v = reg.get_model("gpt-arithmetic-add-rft").unwrap();
    assert_eq!(
        v.base_model_id,
        Some("gpt-arithmetic-add".to_string()),
        "backfill must link the variant to its base by id-suffix heuristic"
    );

    let reg = reopen(reg, &mut columns, &[]);
    let v = reg.get_model("gpt-arithmetic-add-rft").unwrap();
    assert_eq!(v.base_model_id, Some("gpt-arithmetic-add".to_string()));
}

#[test]
fn test_backfill_skips_when_base_id_not_registered() {
    let mut reg = Registry::new();
    register_model_with_range(&mut reg, "lonely-rft", 0, 9);
    let mut columns = Vec::new();
    let reg = reopen(reg, &mut columns, &[]);
    let v = reg.get_model("lonely-rft").unwrap();
    assert_eq!(
        v.base_model_id, None,
        "backfill must skip variants whose stripped stem isn't registered"
    );
}

#[test]
fn test_checkpoint_grids_round_trip_ordered_by_epoch() {
    let mut reg = Registry::new();
    register_model_with_range(&mut reg, "cg-model", 0, 9);
    let now = now_unix();

    assert!(reg.list_checkpoint_grids("cg-model").is_empty());

    reg.record_checkpoint_grid("cg-model", 100, 1.5f64.to_bits(), 0, 9, "{\"a\":1}", 10, 100, now)
        .unwrap();
    reg.record_checkpoint_grid("cg-model", 1, 5.0f64.to_bits(), 0, 9, "{\"a\":0}", 2, 100, now)
        .unwrap();
    reg.record_checkpoint_grid("cg-model", 50, 2.0f64.to_bits(), 0, 9, "{\"a\":2}", 6, 100, now)
        .unwrap();

    let rows = reg.list_checkpoint_grids("cg-model");
    assert_eq!(rows.len(), 3);
    let epochs: Vec<i64> = rows.iter().map(|r| r.epoch).collect();
    assert_eq!(epochs, vec![1, 50, 100], "rows must be ordered by epoch ASC");
    assert_eq!(f64::from_bits(rows[0].loss), 5.0);
    assert_eq!(rows[0].report_json, "{\"a\":0}");
    assert_eq!(rows[2].correct, 10);
    assert_eq!(rows[2].total, 100);

    register_model_with_range(&mut reg, "cg-model-2", 0, 9);
    assert!(reg.list_checkpoint_grids("cg-model-2").is_empty());
}

#[test]
fn test_checkpoint_grids_thin_when_over_cap() {
    let mut reg = Registry::new();
    register_model_with_range(&mut reg, "cg-cap-model", 0, 9);

    let total_inserted = 320;
    for epoch in 1..=total_inserted {
        reg.record_checkpoint_grid(
            "cg-cap-model",
            epoch,
            (1000.0 / epoch as f64).to_bits(),
            0,
            9,
            "{}",
            0,
            100,
            now_unix(),
        )
        .unwrap();
    }

    let rows = reg.list_checkpoint_grids("cg-cap-model");
    assert!(
        rows.len() <= 300,
        "thinning must keep the row count at or under the cap, got {}",
        rows.len()
    );
    assert!(
        rows.len() > 150,
        "uniform thinning must not over-delete (roughly halves, not more), got {}",
        rows.len()
    );
    assert_eq!(rows.first().unwrap().epoch, 1, "earliest epoch must survive thinning");
    assert_eq!(
        rows.last().unwrap().epoch,
        total_inserted as i64,
        "latest epoch must survive thinning"
    );
    let mut prev = 0;
    for r in &rows {
        assert!(r.epoch > prev, "rows must remain strictly increasing by epoch");
        prev = r.epoch;
    }
}

#[test]
fn the_same_path_under_another_id_displaces_the_old_model() {
    let mut reg = Registry::new();
    register_model_with_range(&mut reg, "old", 0, 9);
    reg.record_eval("old", &report_with_correct(3), None, 10);
    let mut renamed = model("new", 0, 9, 20);
    renamed.path = "old.bin".to_string();
    reg.register_model(&renamed);
    assert!(reg.get_model("old").is_none());
    assert!(reg.latest_eval_legacy("old").is_none());
    assert_eq!(reg.list_models().len(), 1);
    assert_eq!(reg.get_model("new").unwrap().path, "old.bin");
    assert!(reg.is_consistent());
}

#[test]
fn unregistered_models_have_no_caches() {
    let mut reg = Registry::new();
    match reg.record_eval_grid("nope", 0, 9, "{}", 1, 2, 3) {
        Err(SmolError::CustomError(m)) => {
            assert_eq!(m, "record_eval_grid: FOREIGN KEY constraint failed")
        }
        _ => panic!("a grid needs a model"),
    }
    assert!(reg.record_jacobian_lens("nope", "{}", "d", &vec![], 3).is_err());
    assert!(reg.record_checkpoint_grid("nope", 1, 0, 0, 9, "{}", 1, 2, 3).is_err());
    reg.record_eval("nope", &report_with_correct(4), None, 5);
    let row = reg.latest_eval_legacy("nope").unwrap();
    assert_eq!((row.eval_min, row.eval_max), (None, None));
    assert!(reg.is_consistent());
}

#[test]
fn a_new_training_drops_snapshots_and_lens_results() {
    let mut reg = Registry::new();
    register_model_with_range(&mut reg, "m", 0, 9);
    reg.record_checkpoint_grid("m", 1, 0, 0, 9, "{}", 1, 2, 3).unwrap();
    reg.record_jacobian_lens("m", "{}", "d", &vec![], 3).unwrap();
    reg.record_eval("m", &report_with_correct(4), None, 5);
    reg.begin_training(&model("m", 0, 9, 50));
    assert!(reg.list_checkpoint_grids("m").is_empty());
    assert!(reg.latest_jacobian_lens("m").is_none());
    assert!(reg.get_model("m").is_some());
}

#[test]
fn summaries_of_cached_rows() {
    let mut reg = Registry::new();
    register_model_with_range(&mut reg, "m", 0, 9);
    reg.record_eval_grid("m", 0, 9, "{}", 12, 100, 77).unwrap();
    let s = EvalGridSummary::from(&reg.latest_eval_grid("m").unwrap());
    assert_eq!((s.eval_min, s.eval_max, s.correct, s.total, s.run_at), (0, 9, 12, 100, 77));
    reg.record_jacobian_lens("m", "{}", "d", &vec![], 78).unwrap();
    let s = JacobianLensSummary::from(&reg.latest_jacobian_lens("m").unwrap());
    assert_eq!(s.computed_at, 78);
}

#[test]
fn malformed_plot_lists_read_as_empty() {
    let mut reg = Registry::new();
    register_model_with_range(&mut reg, "m", 0, 9);
    reg.jacobian_lens_results.push(JacobianRow {
        model_id: "m".to_string(),
        results_json: "{}".to_string(),
        plot_dir: "d".to_string(),
        plot_files: "not json".to_string(),
        computed_at: 1,
    });
    let r = reg.latest_jacobian_lens("m").unwrap();
    assert!(r.plot_files.is_empty());
    let row = &reg.jacobian_lens_results[0];
    let r = jacobian_record(row, Some(vec!["a.png".to_string()]));
    assert_eq!(r.plot_files, vec!["a.png".to_string()]);
}

#[test]
fn models_are_listed_in_order() {
    let mut reg = Registry::new();
    for (id, at) in [("b", 5), ("a", 9), ("c", 5)] {
        let mut m = model(id, 0, 9, at);
        m.updated_at = at;
        reg.register_model(&m);
    }
    let ids: Vec<String> = reg.list_models().iter().map(|m| m.id.clone()).collect();
    assert_eq!(ids, vec!["a", "b", "c"]);
}

#[test]
fn the_clock_is_read_in_seconds() {
    let here = std::time::SystemTime::now()
        .duration_since(std::time::UNIX_EPOCH)
        .unwrap()
        .as_secs() as i64;
    let now = now_unix();
    assert!(now >= here && now <= here + 5);
    let reading = clock_seconds().unwrap() as i64;
    assert!(reading >= now && reading <= now + 5);
    assert_eq!(unix_timestamp(None), 0);
    assert_eq!(unix_timestamp(Some(1720758000)), 1720758000);
}

#[test]
fn training_runs_become_records() {
    let schedule = vec![1, 1, 4, 4];
    let mut m = meta(&schedule, "data/arithmetic.txt", None, None, EvalMode::Smart);
    m.num_blocks = 4;
    m.model_path = "models/GPT arithmetic.bin";
    m.aligned_windows = true;
    let outcome = TrainOutcome {
        epochs_run: 430,
        early_stopped: true,
        final_loss: 1.25f32.to_bits(),
        losses: vec![1.25f32.to_bits()],
    };
    let r = ModelRecord::from_training_at(&m, &outcome, Some("3+4=7\n"), 1000);
    assert_eq!(r.id, "gpt-arithmetic");
    assert_eq!(r.path, "models/GPT arithmetic.bin");
    assert_eq!(r.model_type, "gpt");
    assert_eq!(r.tokenizer, "char");
    assert_eq!(r.num_heads, 1);
    assert_eq!(r.heads_schedule, "1,1,4,4");
    assert_eq!(parse_heads_schedule_column(&r.heads_schedule, r.num_heads, r.num_blocks), schedule);
    assert_eq!(r.aligned_windows, Some(true));
    assert_eq!(r.dataset_name, "arithmetic");
    assert_eq!((r.eval_min, r.eval_max), (3, 4));
    assert_eq!((r.created_at, r.updated_at), (1000, 1000));
    assert!(r.note.contains("early-stopped at epoch 430"));
    let v = m.with_variant("models/gpt-rft.bin", "gpt-arithmetic");
    let r = ModelRecord::from_training_at(&v, &TrainOutcome::placeholder(), None, 1);
    assert_eq!(r.id, "gpt-rft");
    assert_eq!(r.base_model_id, Some("gpt-arithmetic".to_string()));
    assert_eq!((r.eval_min, r.eval_max), (0, 999));
    let live = ModelRecord::from_training(&v, &TrainOutcome::placeholder(), None);
    assert!(live.created_at > 1_600_000_000);
}

#[test]
fn entries_become_records() {
    let e = ModelEntry {
        id: "m".to_string(),
        path: "m.bin".to_string(),
        model_type: "bigram".to_string(),
        tokenizer: "char".to_string(),
        vocab_size: 14,
        block_size: 8,
        hidden_size: 16,
        num_heads: 4,
        num_blocks: 2,
        dataset: "data/x.txt".to_string(),
        dataset_name: "x".to_string(),
        eval_min: 0,
        eval_max: 9,
        eval_samples: 200,
        note: "n".to_string(),
    };
    let r = ModelRecord::from_entry(&e, Some(20), 7);
    assert_eq!(r.params_estimate, 400);
    assert_eq!(r.created_at, 7);
    let mut reg = Registry::new();
    assert_eq!(reg.register_all(&vec![r]), 1);
    assert_eq!(reg.get_model("m").unwrap().model_type, "bigram");
}

#[test]
fn unknown_values_do_not_overwrite_known_ones() {
    let mut reg = Registry::new();
    let mut u = update(20, false, 1.0, "[1.0]", "null");
    u.train_correct = Some(42);
    u.train_total = Some(55);
    u.prompt_ops = Some("+".to_string());
    reg.upsert_training("m", "sft", &u, 10);
    reg.upsert_training("m", "sft", &update(30, true, 0.5, "[0.5]", "null"), 11);
    let t = reg.latest_training("m").unwrap();
    assert_eq!(t.epochs_run, 30);
    assert_eq!((t.train_correct, t.train_total), (Some(42), Some(55)));
    assert_eq!(t.prompt_ops, Some("+".to_string()));
    assert_eq!(t.prompt_min, None);
}

#[test]
fn the_newest_training_kind_is_the_latest() {
    let mut reg = Registry::new();
    reg.upsert_training("m", "sft", &update(20, false, 1.0, "[1.0]", "null"), 10);
    reg.upsert_training("m", "rft", &update(3, false, 0.0, "null", "{}"), 10);
    assert_eq!(reg.latest_training("m").unwrap().kind, "rft");
    reg.upsert_training("m", "sft", &update(30, false, 1.0, "[1.0]", "null"), 11);
    assert_eq!(reg.latest_training("m").unwrap().kind, "sft");
}

#[test]
fn registering_again_forgets_the_analysis() {
    let mut reg = Registry::new();
    register_model_with_range(&mut reg, "m", 0, 9);
    register_model_with_range(&mut reg, "other", 0, 9);
    for id in ["m", "other"] {
        reg.record_jacobian_lens(id, "{}", "d", &vec!["a.png".to_string()], 3).unwrap();
        reg.record_checkpoint_grid(id, 1, 0, 0, 9, "{}", 1, 2, 3).unwrap();
        reg.record_eval_grid(id, 0, 9, "{}", 1, 2, 3).unwrap();
        reg.record_eval(id, &report_with_correct(4), None, 5);
    }
    let mut again = model("m", 0, 9, 99);
    again.note = "again".to_string();
    let created = reg.get_model("m").unwrap().created_at;
    reg.register_model(&again);
    assert!(reg.latest_jacobian_lens("m").is_none());
    assert!(reg.latest_jacobian_lens("other").is_some());
    assert_eq!(reg.list_checkpoint_grids("m").len(), 1);
    assert!(reg.latest_eval_grid("m").is_some());
    assert!(reg.latest_eval("m").is_some());
    let m = reg.get_model("m").unwrap();
    assert_eq!((m.note.as_str(), m.created_at), ("again", created));
    reg.record_jacobian_lens("m", "{}", "d", &vec![], 7).unwrap();
    assert_eq!(reg.latest_jacobian_lens("m").unwrap().computed_at, 7);
    assert!(reg.is_consistent());
}

#[test]
fn a_new_training_leaves_other_models_and_counters_alone() {
    let mut reg = Registry::new();
    for id in ["m", "other"] {
        register_model_with_range(&mut reg, id, 0, 9);
        reg.record_checkpoint_grid(id, 1, 0, 0, 9, "{}", 1, 2, 3).unwrap();
        reg.record_jacobian_lens(id, "{}", "d", &vec![], 3).unwrap();
        reg.record_eval_grid(id, 0, 9, "{}", 1, 2, 3).unwrap();
        reg.record_eval(id, &report_with_correct(4), None, 5);
        reg.upsert_training(id, "sft", &update(1, false, 0.5, "[]", "null"), 6);
    }
    let before = (reg.next_eval_id, reg.next_checkpoint_id, reg.next_training_id);
    assert_eq!(before, (3, 3, 3));
    reg.begin_training(&model("m", 0, 9, 50));
    assert_eq!((reg.next_eval_id, reg.next_checkpoint_id, reg.next_training_id), before);
    assert!(reg.latest_eval("m").is_some());
    assert!(reg.latest_eval_grid("m").is_some());
    assert!(reg.latest_eval("other").is_some());
    assert!(reg.latest_eval_grid("other").is_some());
    assert_eq!(reg.list_checkpoint_grids("other").len(), 1);
    assert!(reg.latest_jacobian_lens("other").is_some());
    assert_eq!(reg.trainings.len(), 2);
}

#[test]
fn a_list_of_models_is_registered_in_turn() {
    let mut reg = Registry::new();
    for id in ["a", "b", "c"] {
        reg.register_model(&model(id, 0, 9, 10));
        reg.record_eval(id, &report_with_correct(4), None, 5);
        reg.record_jacobian_lens(id, "{}", "d", &vec![], 3).unwrap();
    }
    reg.upsert_training("b", "sft", &update(1, false, 0.5, "[]", "null"), 6);
    let mut taker = model("d", 0, 9, 20);
    taker.path = "b.bin".to_string();
    assert_eq!(reg.register_all(&vec![model("a", 0, 19, 20), taker]), 2);
    assert_eq!(reg.get_model("a").unwrap().created_at, 10);
    assert_eq!(reg.get_model("a").unwrap().eval_max, 19);
    assert!(reg.get_model("b").is_none());
    assert_eq!(reg.get_model("d").unwrap().created_at, 20);
    assert!(reg.latest_eval_legacy("a").is_some());
    assert!(reg.latest_jacobian_lens("a").is_none());
    assert!(reg.latest_eval_legacy("b").is_none());
    assert!(reg.latest_eval_legacy("c").is_some());
    assert!(reg.latest_jacobian_lens("c").is_some());
    assert_eq!(reg.trainings.len(), 1);
    assert_eq!((reg.next_eval_id, reg.next_training_id), (4, 2));
    assert!(reg.is_consistent());
}

#[test]
fn a_known_training_needs_no_free_id() {
    let mut reg = Registry::new();
    reg.upsert_training("m", "sft", &update(1, false, 0.5, "[]", "null"), 6);
    reg.next_training_id = i64::MAX;
    reg.upsert_training("m", "sft", &update(2, true, 0.25, "[]", "null"), 7);
    assert_eq!(reg.trainings.len(), 1);
    assert_eq!(reg.latest_training("m").unwrap().epochs_run, 2);
    assert_eq!(reg.next_training_id, i64::MAX);
}
