use std::collections::HashSet;

use rand::rngs::StdRng;
use rand::Rng;
use rand::SeedableRng;
use smolgpt::corpus::compute_answer_mask;
use smolgpt::corpus::compute_fact_boundaries;
use smolgpt::corpus::corpus_sample;
use smolgpt::corpus::operand_range;
use smolgpt::corpus::operators_present;
use smolgpt::corpus::parse_operand_pair;
use smolgpt::dataset::any_counted;
use smolgpt::dataset::sample_example_windows;
use smolgpt::dataset::sample_window_starts;
use smolgpt::dataset::window_lessons;
use smolgpt::dataset::Dataset;
use smolgpt::dataset::DatasetType;
use smolgpt::error::SmolError;
use smolgpt::generate::generate_corpus;

#[test]
fn test_dataset() {
    let encoded_corpus: Vec<u32> = vec![1, 2, 3, 4, 5, 6, 7, 8, 9, 10];
    let train_size = (encoded_corpus.len() as f64 * 0.8) as usize;
    let mut dataset = Dataset::new(encoded_corpus, train_size).unwrap();

    assert_eq!(dataset.train_size, 8);
    assert_eq!(dataset.validation_size, 2);

    let (x_batch, y_batch) = dataset.get_batch(DatasetType::Training, 0, 4).unwrap();
    assert_eq!(x_batch.len(), 4);
    assert_eq!(y_batch.len(), 4);

    let (x_batch, y_batch) = dataset.get_random_batches(DatasetType::Training, 4, 2).unwrap();
    assert_eq!(x_batch.iter().map(|row| row.len()).collect::<Vec<_>>(), vec![4, 4]);
    assert_eq!(y_batch.iter().map(|row| row.len()).collect::<Vec<_>>(), vec![4, 4]);
}

#[test]
fn test_compute_fact_boundaries() {
    let corpus = "3+4=7\n9+9=18\n0+0=0\n";
    assert_eq!(compute_fact_boundaries(corpus), vec![0, 6, 13, 19]);
}

#[test]
fn test_aligned_windows_sampling_only_starts_at_fact_boundaries() {
    let corpus = "1+1=2\n3+3=6\n".repeat(20);
    let boundaries = compute_fact_boundaries(&corpus);
    let encoded: Vec<u32> = corpus.bytes().map(|b| b as u32).collect();
    let train_size = (encoded.len() as f64 * 0.9) as usize;
    let rng = StdRng::seed_from_u64(42);

    let mut dataset = Dataset::with_rng_and_mask_aligned(
        encoded,
        None,
        Some(boundaries.clone()),
        train_size,
        rng,
    )
    .unwrap();
    assert!(
        dataset.train_aligned_starts.is_some(),
        "aligned starts should be populated when fact_boundaries is Some"
    );

    let block_size = 4;
    let (x_batch, _y_batch) =
        dataset.get_random_batches(DatasetType::Training, block_size, 200).unwrap();
    let train_len = dataset.train_size;
    let valid_boundaries: Vec<usize> =
        boundaries.iter().copied().filter(|&i| i < train_len - block_size).collect();
    assert!(!valid_boundaries.is_empty());

    assert_eq!(x_batch.len(), 200);
    for row in &x_batch {
        let matches_some_boundary = valid_boundaries.iter().any(|&start| {
            let expected: Vec<u32> =
                corpus.bytes().skip(start).take(block_size).map(|b| b as u32).collect();
            *row == expected
        });
        assert!(
            matches_some_boundary,
            "sampled window {row:?} does not start at any fact-boundary offset {valid_boundaries:?}"
        );
    }
}

#[test]
fn test_sample_example_windows_unaligned_mixes_mid_fact_starts() {
    let corpus = "1+1=2\n3+3=6\n5+5=10\n".repeat(20);
    let boundaries = compute_fact_boundaries(&corpus);
    let chars: Vec<char> = corpus.chars().collect();
    let boundary_chars: HashSet<char> =
        boundaries.iter().filter(|&&i| i < chars.len()).map(|&i| chars[i]).collect();
    let windows = sample_example_windows(&corpus, 4, false, 50);
    assert_eq!(windows.len(), 50);
    let any_mid_fact = windows.iter().any(|w| {
        let first = w.chars().next().unwrap();
        !boundary_chars.contains(&first)
    });
    assert!(any_mid_fact, "expected at least one mid-fact-start window under unaligned sampling");
}

#[test]
fn test_sample_example_windows_aligned_always_starts_at_fact_boundary() {
    let corpus = "1+1=2\n3+3=6\n5+5=10\n".repeat(20);
    let block_size = 4;
    let boundaries = compute_fact_boundaries(&corpus);
    let total = corpus.chars().count();
    let valid_boundaries: Vec<usize> =
        boundaries.into_iter().filter(|&i| i < total - block_size).collect();
    assert!(!valid_boundaries.is_empty());

    let chars: Vec<char> = corpus.chars().collect();
    let windows = sample_example_windows(&corpus, block_size, true, 50);
    assert_eq!(windows.len(), 50);
    for w in &windows {
        let matches_some_boundary = valid_boundaries.iter().any(|&start| {
            let expected: String = chars[start..start + block_size].iter().collect();
            *w == expected
        });
        assert!(matches_some_boundary, "aligned window {w:?} did not start at a fact boundary");
    }
}

#[test]
fn test_sample_example_windows_empty_for_short_corpus() {
    assert_eq!(sample_example_windows("ab", 4, false, 5), Vec::<String>::new());
    assert_eq!(sample_example_windows("", 4, true, 5), Vec::<String>::new());
}

#[test]
fn test_sample_example_windows_is_deterministic_across_calls() {
    let corpus = "1+1=2\n3+3=6\n5+5=10\n".repeat(20);
    let a = sample_example_windows(&corpus, 4, true, 8);
    let b = sample_example_windows(&corpus, 4, true, 8);
    assert_eq!(a, b);
}

#[test]
fn test_operand_range_single_digit() {
    let corpus = "3+4=7\n9+9=18\n0+0=0\n5-2=3\n8+1=9\n";
    assert_eq!(operand_range(corpus), Some((0, 9)));
}

#[test]
fn test_operand_range_three_digit_with_negatives() {
    let corpus = "-265-985=-1250\n468+756=1224\n-5+618=613\n942+996=1938\n";
    let (min, max) = operand_range(corpus).unwrap();
    assert_eq!(min, -265);
    assert_eq!(max, 996);
}

#[test]
fn test_operand_range_ignores_blank_and_garbage_lines() {
    let corpus = "\nhello world\n3+4=7\n  \n9-2=7\n";
    assert_eq!(operand_range(corpus), Some((2, 9)));
}

#[test]
fn test_operand_range_no_parseable_lines() {
    assert_eq!(operand_range("To be, or not to be\nThat is the question\n"), None);
    assert_eq!(operand_range(""), None);
}

#[test]
fn operand_pairs_of_single_lines() {
    assert_eq!(parse_operand_pair("3+4=7"), Some((3, 4, '+')));
    assert_eq!(parse_operand_pair("-5-6=-11"), Some((-5, 6, '-')));
    assert_eq!(parse_operand_pair("+7+2=9"), None);
    assert_eq!(parse_operand_pair("7++2=9"), Some((7, 2, '+')));
    assert_eq!(parse_operand_pair("3+4"), Some((3, 4, '+')));
    for tail in ["", "7", "oops", "=1-2=", "-9\n8+8=16"] {
        assert_eq!(parse_operand_pair(&format!("3+4={tail}")), Some((3, 4, '+')));
        assert_eq!(parse_operand_pair(&format!("-3--4={tail}")), Some((-3, -4, '-')));
    }
    assert_eq!(parse_operand_pair("3*4=12"), None);
    assert_eq!(parse_operand_pair(""), None);
    assert_eq!(parse_operand_pair("99999999999999999999+1=0"), None);
}

#[test]
fn operators_of_corpora() {
    assert_eq!(operators_present("3+4=7\n"), Some("+".to_string()));
    assert_eq!(operators_present("3-4=-1\n"), Some("-".to_string()));
    assert_eq!(operators_present("3-4=-1\n1+1=2\n"), Some("+,-".to_string()));
    assert_eq!(operators_present("hello\n"), None);
}

#[test]
fn answer_mask_covers_answers_and_line_ends() {
    let corpus = "3+4=7\n9+9=18\n";
    let mask = compute_answer_mask(corpus);
    let shown: String = mask.iter().map(|&m| if m { '1' } else { '0' }).collect();
    assert_eq!(shown, "0000110000111");
}

#[test]
fn corpus_sample_is_short() {
    assert_eq!(corpus_sample("ab\n"), "ab\n");
    let long = "x".repeat(3000);
    assert_eq!(corpus_sample(&long).len(), 1000);
}

#[test]
fn batches_hold_the_shifted_targets_and_the_mask() {
    let data: Vec<u32> = (0..20).collect();
    let mask: Vec<bool> = (0..20).map(|i| i % 3 == 0).collect();
    let dataset =
        Dataset::with_rng_and_mask(data, Some(mask), 15, StdRng::seed_from_u64(7)).unwrap();
    let (x, y, m) = dataset.get_batch_masked(DatasetType::Training, 2, 4).unwrap();
    assert_eq!(x, vec![2, 3, 4, 5]);
    assert_eq!(y, vec![3, 4, 5, 6]);
    assert_eq!(m, vec![true, false, false, true]);
    let (x, y) = dataset.get_batch(DatasetType::Validation, 0, 3).unwrap();
    assert_eq!(x, vec![15, 16, 17]);
    assert_eq!(y, vec![16, 17, 18]);
}

#[test]
fn random_batches_start_where_the_generator_says() {
    let data: Vec<u32> = (0..100).collect();
    let mut dataset = Dataset::with_rng(data, 100, StdRng::seed_from_u64(5)).unwrap();
    let (x, y) = dataset.get_random_batches(DatasetType::Training, 8, 6).unwrap();
    let mut rng = StdRng::seed_from_u64(5);
    for i in 0..6 {
        let start: usize = rng.random_range(0..100 - 8);
        let want: Vec<u32> = (start as u32..start as u32 + 8).collect();
        assert_eq!(x[i], want);
        assert_eq!(y[i], want.iter().map(|t| t + 1).collect::<Vec<u32>>());
    }
}

#[test]
fn window_starts_follow_the_generator() {
    let mut ours = StdRng::seed_from_u64(11);
    let mut theirs = StdRng::seed_from_u64(11);
    let starts = sample_window_starts(&mut ours, 50, 10, None, 20);
    let want: Vec<usize> = (0..20).map(|_| theirs.random_range(0..40)).collect();
    assert_eq!(starts, want);
    let pool: Vec<usize> = vec![0, 6, 12];
    let starts = sample_window_starts(&mut ours, 50, 10, Some(&pool), 20);
    let want: Vec<usize> = (0..20).map(|_| pool[theirs.random_range(0..3)]).collect();
    assert_eq!(starts, want);
}

#[test]
fn too_short_data_is_an_error() {
    let mut dataset = Dataset::new(vec![1, 2, 3, 4], 3).unwrap();
    let r = dataset.get_random_batches(DatasetType::Training, 3, 2);
    assert!(matches!(r, Err(SmolError::DatasetError(_))));
    let r = dataset.get_random_batches_masked(DatasetType::Training, 8, 2);
    assert!(matches!(r, Err(SmolError::DatasetError(_))));
    let r = dataset.get_random_batches(DatasetType::Training, 1, 0);
    match r {
        Err(SmolError::CandleError(m)) => assert!(m.contains("at least one tensor")),
        _ => panic!("no rows must not stack"),
    }
}

#[test]
fn masked_batches_without_a_mask_weigh_every_token() {
    let dataset = Dataset::new((0..10).collect(), 8).unwrap();
    let (_, _, m) = dataset.get_batch_masked(DatasetType::Training, 0, 4).unwrap();
    assert_eq!(m, vec![true; 4]);
}

#[test]
fn generated_corpora_are_right_and_reproducible() {
    let corpus = generate_corpus(0, 99, 200, 42).unwrap();
    assert_eq!(corpus, generate_corpus(0, 99, 200, 42).unwrap());
    assert_ne!(corpus, generate_corpus(0, 99, 200, 43).unwrap());
    assert_eq!(corpus.lines().count(), 200);
    let mut rng = StdRng::seed_from_u64(42);
    for line in corpus.lines() {
        let a: i64 = rng.random_range(0..=99);
        let b: i64 = rng.random_range(0..=99);
        let want = if rng.random_bool(0.5) {
            format!("{a}+{b}={}", a + b)
        } else {
            format!("{a}-{b}={}", a - b)
        };
        assert_eq!(line, want);
    }
    let (min, max) = operand_range(&corpus).unwrap();
    assert!(min >= 0 && max <= 99);
    assert_eq!(operators_present(&corpus), Some("+,-".to_string()));
}

#[test]
fn generation_refuses_bad_ranges() {
    assert_eq!(generate_corpus(-1, 9, 5, 1), Err("--min (-1) must be >= 0".to_string()));
    assert_eq!(
        generate_corpus(10, 9, 5, 1),
        Err("--min (10) must be <= --max (9)".to_string())
    );
    assert_eq!(generate_corpus(0, 9, 0, 1), Ok(String::new()));
}

#[test]
fn masks_that_count_something() {
    assert!(!any_counted(&vec![]));
    assert!(!any_counted(&vec![vec![false, false], vec![]]));
    assert!(any_counted(&vec![vec![false], vec![false, true]]));
}

#[test]
fn windows_teach_one_token_per_position() {
    let dataset = Dataset::new((10..20).collect(), 9).unwrap();
    let (x, y) = dataset.get_batch(DatasetType::Training, 1, 3).unwrap();
    let lessons = window_lessons(&x, &y);
    assert_eq!(
        lessons,
        vec![(vec![11], 12), (vec![11, 12], 13), (vec![11, 12, 13], 14)]
    );
}

#[test]
fn bad_splits_and_masks_are_refused() {
    match Dataset::new(vec![1, 2, 3], 4) {
        Err(SmolError::CandleError(m)) => assert_eq!(
            m,
            "narrow invalid args start + len > dim_len: [3], dim: 0, start: 0, len:4"
        ),
        _ => panic!("the training part cannot be longer than the whole"),
    }
    let r = Dataset::with_rng_and_mask(
        vec![1, 2, 3],
        Some(vec![true]),
        2,
        StdRng::seed_from_u64(1),
    );
    match r {
        Err(SmolError::DatasetError(m)) => assert_eq!(m, "answer_mask length 1 != data length 3"),
        _ => panic!("a mask has the length of the data"),
    }
    let d = Dataset::new(vec![1, 2, 3], 3).unwrap();
    match d.get_batch(DatasetType::Training, 1, 2) {
        Err(SmolError::DatasetError(m)) => assert_eq!(m, "Batch size exceeds dataset size"),
        _ => panic!("the target needs one token more"),
    }
}

#[test]
fn example_windows_are_windows_of_the_corpus() {
    let corpus = "1+2=3\n10+20=30\n4+5=9\n";
    let n = corpus.len();
    for (aligned, block) in [(false, 4), (true, 4), (false, n - 1), (true, n - 1)] {
        let windows = sample_example_windows(corpus, block, aligned, 40);
        assert_eq!(windows.len(), 40);
        for w in windows {
            assert!((0..n - block).any(|x| corpus[x..x + block] == w), "{w:?}");
        }
    }
    assert!(sample_example_windows(corpus, n, false, 40).is_empty());
}
