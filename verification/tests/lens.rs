use smolgpt::error::SmolError;
use smolgpt::jacobian::lens_outcome;
use smolgpt::jacobian::plan_jacobian_lens;
use smolgpt::jacobian::plot_names;
use smolgpt::jacobian::LensFault;
use smolgpt::jacobian::LensFiles;
use smolgpt::record::ModelRecord;

fn record(model_type: &str, schedule: &str) -> ModelRecord {
    ModelRecord {
        id: "m".to_string(),
        path: "m.bin".to_string(),
        model_type: model_type.to_string(),
        tokenizer: "char".to_string(),
        vocab_size: 14,
        block_size: 16,
        hidden_size: 32,
        num_heads: 4,
        num_blocks: 2,
        heads_schedule: schedule.to_string(),
        aligned_windows: None,
        dataset: "data/x.txt".to_string(),
        dataset_name: "x".to_string(),
        eval_min: 0,
        eval_max: 9,
        eval_samples: 200,
        note: String::new(),
        params_estimate: 0,
        base_model_id: None,
        created_at: 0,
        updated_at: 0,
    }
}

fn files() -> LensFiles {
    LensFiles {
        script: "/p/analysis/jacobian_lens.py".to_string(),
        script_exists: true,
        model: Some("/p/m.bin".to_string()),
        dataset: Some("/p/data/x.txt".to_string()),
        output_dir: "/p/jacobian_lens_output/m".to_string(),
    }
}

#[test]
fn the_script_gets_the_architecture() {
    let args = plan_jacobian_lens(&record("gpt", "1,4"), &files()).unwrap();
    assert_eq!(
        args,
        vec![
            "/p/analysis/jacobian_lens.py",
            "--model-path",
            "/p/m.bin",
            "--dataset-path",
            "/p/data/x.txt",
            "--block-size",
            "16",
            "--hidden-size",
            "32",
            "--num-heads",
            "1,4",
            "--num-blocks",
            "2",
            "--vocab-size",
            "14",
            "--output-dir",
            "/p/jacobian_lens_output/m",
        ]
    );
    let args = plan_jacobian_lens(&record("gpt", ""), &files()).unwrap();
    assert_eq!(args[10], "4");
}

#[test]
fn missing_pieces_are_reported_in_order() {
    let mut f = files();
    f.dataset = None;
    match plan_jacobian_lens(&record("gpt", ""), &f) {
        Err(SmolError::CustomError(m)) => {
            assert_eq!(m, "dataset path not found or escapes project root: data/x.txt")
        }
        other => panic!("{other:?}"),
    }
    f.model = None;
    match plan_jacobian_lens(&record("gpt", ""), &f) {
        Err(SmolError::CustomError(m)) => {
            assert_eq!(m, "model path not found or escapes project root: m.bin")
        }
        other => panic!("{other:?}"),
    }
    f.script_exists = false;
    match plan_jacobian_lens(&record("gpt", ""), &f) {
        Err(SmolError::CustomError(m)) => {
            assert_eq!(m, "jacobian_lens.py not found at /p/analysis/jacobian_lens.py")
        }
        other => panic!("{other:?}"),
    }
    match plan_jacobian_lens(&record("bigram", ""), &f) {
        Err(SmolError::InvalidArgument(m)) => assert_eq!(
            m,
            "Jacobian lens is only applicable to Gpt-type models (got model_type=bigram); \
             Bigram/Ngram models have no transformer layers to lens through."
        ),
        other => panic!("{other:?}"),
    }
}

#[test]
fn failures_show_the_end_of_the_error_stream() {
    let stderr: String = (0..50).map(|i| format!("line {i}\r\n")).collect();
    let fault = LensFault::Failed { status: "exit status: 1".to_string(), stderr };
    let want: Vec<String> = (10..50).map(|i| format!("line {i}")).collect();
    assert_eq!(
        fault.error().text(),
        format!("Got error: jacobian_lens.py exited with status exit status: 1:\n{}", want.join("\n"))
    );
    let fault = LensFault::Failed { status: "s".to_string(), stderr: String::new() };
    assert_eq!(
        fault.error().text(),
        "Got error: jacobian_lens.py exited with status s:\n(no stderr output)"
    );
}

#[test]
fn other_faults_are_named() {
    assert!(LensFault::PythonMissing.error().text().contains("python3 not found on PATH — "));
    assert_eq!(
        LensFault::Launch { why: "w".to_string() }.error().text(),
        "Got error: failed to launch python3 for jacobian-lens analysis: w"
    );
    assert_eq!(
        LensFault::OutputDir { dir: "d".to_string(), why: "w".to_string() }.error().text(),
        "Got error: failed to create jacobian-lens output dir d: w"
    );
    assert_eq!(
        LensFault::NoResults { path: "p".to_string(), why: "w".to_string() }.error().text(),
        "Got error: jacobian_lens.py reported success but results.json is missing at p: w"
    );
}

#[test]
fn plots_are_picked_and_sorted() {
    let names: Vec<String> =
        ["z.png", "results.json", "a.png", "b.PNG", "m.png", "a.png"].map(String::from).to_vec();
    assert_eq!(plot_names(&names), vec!["a.png", "a.png", "m.png", "z.png"]);
    let o = lens_outcome(&record("gpt", ""), "{}".to_string(), &names);
    assert_eq!(o.plot_dir_rel, "jacobian_lens_output/m");
    assert_eq!(o.results_json, "{}");
    assert_eq!(o.plot_files.len(), 4);
}
