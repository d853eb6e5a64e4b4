use rand::rngs::StdRng;
use rand::Rng;
use rand::SeedableRng;
use smolgpt::error::SmolError;
use smolgpt::eval::print_report;
use smolgpt::eval::EvalExample;
use smolgpt::eval::EvalReport;
use smolgpt::eval::EvalRun;
use smolgpt::problem::answer_digit_bucket;
use smolgpt::problem::draw_problem;
use smolgpt::problem::is_clean_answer;
use smolgpt::problem::operands_fit;
use smolgpt::problem::parse_leading_int;
use smolgpt::problem::parse_ops;
use smolgpt::problem::Problem;

#[test]
fn test_parse_leading_int_positive() {
    assert_eq!(parse_leading_int("529\n"), Some(529));
    assert_eq!(parse_leading_int("1998"), Some(1998));
    assert_eq!(parse_leading_int("0+1"), Some(0));
}

#[test]
fn test_parse_leading_int_negative() {
    assert_eq!(parse_leading_int("-4\n"), Some(-4));
    assert_eq!(parse_leading_int("-1250\n next"), Some(-1250));
    assert_eq!(parse_leading_int("-0"), Some(0));
}

#[test]
fn test_parse_leading_int_garbage() {
    assert_eq!(parse_leading_int("abc"), None);
    assert_eq!(parse_leading_int(""), None);
    assert_eq!(parse_leading_int("-"), None);
    assert_eq!(parse_leading_int("\n123"), None);
}

#[test]
fn test_answer_digit_bucket_single_digit() {
    assert_eq!(answer_digit_bucket(0), 0);
    assert_eq!(answer_digit_bucket(7), 0);
    assert_eq!(answer_digit_bucket(9), 0);
    assert_eq!(answer_digit_bucket(-1), 0);
    assert_eq!(answer_digit_bucket(-9), 0);
}

#[test]
fn test_answer_digit_bucket_two_digit() {
    assert_eq!(answer_digit_bucket(10), 1);
    assert_eq!(answer_digit_bucket(18), 1);
    assert_eq!(answer_digit_bucket(99), 1);
    assert_eq!(answer_digit_bucket(-42), 1);
    assert_eq!(answer_digit_bucket(-99), 1);
}

#[test]
fn test_answer_digit_bucket_three_and_four_plus() {
    assert_eq!(answer_digit_bucket(100), 2);
    assert_eq!(answer_digit_bucket(999), 2);
    assert_eq!(answer_digit_bucket(-999), 2);
    assert_eq!(answer_digit_bucket(1000), 3);
    assert_eq!(answer_digit_bucket(-1250), 3);
    assert_eq!(answer_digit_bucket(i64::MAX), 3);
}

#[test]
fn test_answer_digit_bucket_single_digit_model_split() {
    let answers: Vec<i64> = (-9..=18).collect();
    let mut buckets = [0usize; 4];
    for a in &answers {
        buckets[answer_digit_bucket(*a)] += 1;
    }
    assert_eq!(buckets[0], 19, "1-digit-answer bucket should hold 19 of 28");
    assert_eq!(buckets[1], 9, "2-digit-answer bucket should hold 9 of 28");
    assert_eq!(buckets[2], 0);
    assert_eq!(buckets[3], 0);
}

#[test]
fn integers_beyond_the_range_are_not_read() {
    assert_eq!(parse_leading_int("9223372036854775807"), Some(i64::MAX));
    assert_eq!(parse_leading_int("9223372036854775808"), None);
    assert_eq!(parse_leading_int("-9223372036854775807x"), Some(-i64::MAX));
}

#[test]
fn operator_lists() {
    assert_eq!(parse_ops("+").unwrap(), vec!['+']);
    assert_eq!(parse_ops(" + , - ").unwrap(), vec!['+', '-']);
    match parse_ops("+,*") {
        Err(SmolError::InvalidArgument(m)) => {
            assert_eq!(m, "ops entry `*` invalid; only `+` and `-` supported")
        }
        _ => panic!("an unknown operator must be refused"),
    }
    assert!(parse_ops("").is_err());
}

#[test]
fn clean_answers() {
    assert!(is_clean_answer("7\n", 7));
    assert!(is_clean_answer("7", 7));
    assert!(is_clean_answer("-12\n", -12));
    assert!(!is_clean_answer("77\n", 7));
    assert!(!is_clean_answer("7x\n", 7));
    assert!(!is_clean_answer("", 7));
}

#[test]
fn problems_are_written_out() {
    let p = Problem { a: 3, b: 7, op: '-' };
    assert_eq!(p.prompt(), "3-7=");
    assert_eq!(p.fact_line(), "3-7=-4\n");
    assert_eq!(p.true_answer(), -4);
}

#[test]
fn problems_follow_the_generator() {
    let ops = vec!['+', '-'];
    let mut ours = StdRng::seed_from_u64(3);
    let mut theirs = StdRng::seed_from_u64(3);
    for _ in 0..50 {
        let p = draw_problem(&mut ours, -5, 40, &ops);
        assert_eq!(p.a, theirs.random_range(-5i64..=40));
        assert_eq!(p.b, theirs.random_range(-5i64..=40));
        assert_eq!(p.op, ops[theirs.random_range(0..2usize)]);
    }
}

fn run_with(seed: u64, n: usize, answer: fn(&Problem) -> String) -> EvalReport {
    let mut run = EvalRun::start(n, 0, 9, Some(0), Some(seed), "+,-").unwrap();
    while let Some(p) = run.next_problem() {
        let text = answer(&p);
        run.submit(&text);
    }
    run.finish()
}

#[test]
fn a_perfect_model_scores_everything() {
    let r = run_with(1, 40, |p| format!("{}\n", p.true_answer()));
    assert_eq!(r.total, 40);
    assert_eq!(r.correct, 40);
    assert_eq!(r.total_plus + r.total_minus, 40);
    assert_eq!(r.correct_plus, r.total_plus);
    assert_eq!(r.correct_minus, r.total_minus);
    assert_eq!(r.by_digits.iter().map(|d| d.1).sum::<usize>(), 40);
    assert_eq!(r.examples.len(), 10);
    assert!(r.examples.iter().all(|e| e.correct));
}

#[test]
fn a_silent_model_scores_nothing() {
    let r = run_with(1, 40, |_| String::new());
    assert_eq!(r.correct, 0);
    assert_eq!(r.total, 40);
    assert!(r.examples.iter().all(|e| !e.correct));
}

#[test]
fn reports_are_reproducible() {
    let a = run_with(9, 30, |p| format!("{}\n", p.a + p.b));
    let b = run_with(9, 30, |p| format!("{}\n", p.a + p.b));
    assert_eq!(format!("{a:?}"), format!("{b:?}"));
    assert_eq!(a.correct_plus, a.total_plus);
}

#[test]
fn runs_that_cannot_start() {
    assert!(matches!(
        EvalRun::start(5, 9, 0, Some(0), None, "+"),
        Err(SmolError::InvalidArgument(_))
    ));
    assert!(matches!(
        EvalRun::start(5, 0, 9, None, None, "+"),
        Err(SmolError::InvalidArgument(_))
    ));
    assert!(matches!(
        EvalRun::start(5, 0, 9, Some(1), None, "/"),
        Err(SmolError::InvalidArgument(_))
    ));
}

#[test]
fn no_samples_give_an_empty_report() {
    let mut run = EvalRun::start(0, 0, 9, Some(0), Some(1), "+").unwrap();
    assert!(run.next_problem().is_none());
    let r = run.finish();
    assert_eq!(r.total, 0);
    assert_eq!(format!("{r:?}"), format!("{:?}", EvalReport::default()));
}

#[test]
fn reports_are_shown() {
    let r = EvalReport {
        total: 4,
        correct: 3,
        correct_plus: 2,
        total_plus: 2,
        correct_minus: 1,
        total_minus: 2,
        by_digits: [(2, 3), (1, 1), (0, 0), (0, 0)],
        examples: vec![
            EvalExample {
                prompt: "3+4=".to_string(),
                generated: "7\n9".to_string(),
                true_answer: 7,
                correct: true,
            },
            EvalExample {
                prompt: "3-4=".to_string(),
                generated: "1".to_string(),
                true_answer: -1,
                correct: false,
            },
        ],
    };
    let want = "Eval: 3/4 = 75.00%\n  + : 2/2\n  - : 1/2\n  1-digit answer : 2/3\n  \
                2-digit answer : 1/1\n  3-digit answer : 0/0\n  4+-digit answer: 0/0\n\nExamples:\n  \
                [ok] 3+4=7 (true: 7)\n  [FAIL] 3-4=1 (true: -1)\n";
    assert_eq!(print_report(&r, "75.00"), want);
}

#[test]
fn operands_whose_answers_fit() {
    assert!(operands_fit(0, 999, &vec!['+', '-']));
    assert!(!operands_fit(0, i64::MAX, &vec!['+']));
    assert!(operands_fit(0, i64::MAX, &vec!['-']));
    assert!(!operands_fit(-1, i64::MAX, &vec!['-']));
    assert!(operands_fit(i64::MIN / 2, 0, &vec!['+']));
    assert!(!operands_fit(i64::MIN / 2 - 1, 0, &vec!['+']));
    assert!(operands_fit(i64::MIN, i64::MAX, &vec![]));
}

#[test]
fn the_least_number_has_a_bucket() {
    assert_eq!(answer_digit_bucket(i64::MIN), 3);
    assert_eq!(answer_digit_bucket(-100), 2);
    assert_eq!(answer_digit_bucket(-1000), 3);
}

#[test]
fn an_operator_that_is_not_asked_for_is_not_counted() {
    for (ops, plus, minus) in [("+", 30, 0), (" - ", 0, 30), ("+,+", 30, 0)] {
        let mut run = EvalRun::start(30, -3, 12, Some(0), Some(5), ops).unwrap();
        while let Some(p) = run.next_problem() {
            assert!(-3 <= p.a && p.a <= 12 && -3 <= p.b && p.b <= 12);
            run.submit("0");
        }
        let r = run.finish();
        assert_eq!((r.total, r.total_plus, r.total_minus), (30, plus, minus));
    }
}

#[test]
fn a_wide_range_without_a_stop_token_is_refused() {
    match EvalRun::start(5, i64::MIN, i64::MAX, None, Some(1), "+") {
        Err(SmolError::InvalidArgument(m)) => {
            assert_eq!(m, "Tokenizer produced no encoding for '\\n'")
        }
        _ => panic!("a newline token is needed"),
    }
}
