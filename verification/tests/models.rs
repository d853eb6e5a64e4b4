use smolgpt::args::ModelType;
use smolgpt::decode::full_step_ready;
use smolgpt::decode::lite_step_ready;
use smolgpt::decode::plan_completion;
use smolgpt::decode::truncate_context;
use smolgpt::decode::Decoder;
use smolgpt::error::SmolError;
use smolgpt::layout::can_estimate;
use smolgpt::layout::estimate_params;
use smolgpt::model::checked_power;
use smolgpt::model::weight_init;
use smolgpt::model::Gpt;
use smolgpt::model::LanguageModel;
use smolgpt::model::NgramLM;
use smolgpt::model::WeightInit;

#[test]
fn test_ngram_new_shapes() {
    let vocab_size: usize = 13;
    for n in [2usize, 3, 4, 5] {
        let model = NgramLM::new(vocab_size, n);
        assert_eq!(model.context_len(), n - 1);
        assert_eq!(model.num_keys(), vocab_size.pow((n - 1) as u32));
    }
}

#[test]
fn test_ngram_order_2_matches_bigram_indexing() {
    let vocab_size = 13;
    let model = NgramLM::new(vocab_size, 2);
    let row = vec![3u32, 7, 1, 9];
    let keys_vec = model.compute_keys(&row);
    assert_eq!(keys_vec, row, "n=2 keys must equal the raw token ids (BigramLM's own indexing)");
}

#[test]
fn test_ngram_order_3_composite_key() {
    let vocab_size: usize = 13;
    let model = NgramLM::new(vocab_size, 3);
    let row = vec![3u32, 7, 1, 9];
    let keys_vec = model.compute_keys(&row);
    let expected = vec![
        0 * vocab_size as u32 + 3,
        3 * vocab_size as u32 + 7,
        7 * vocab_size as u32 + 1,
        1 * vocab_size as u32 + 9,
    ];
    assert_eq!(keys_vec, expected);
}

#[test]
fn test_gpt_new_accepts_non_uniform_heads_schedule() {
    let (block_size, vocab_size, embed_dims) = (16, 20, 16);
    let heads_schedule = vec![1, 2, 4, 8];
    let gpt = Gpt::new(block_size, vocab_size, embed_dims, &heads_schedule, 4, false).unwrap();
    assert_eq!(gpt.heads_schedule, heads_schedule);
    assert!(gpt.check_sequence(block_size).is_ok());
}

#[test]
fn test_gpt_new_rejects_wrong_schedule_length() {
    let heads_schedule = vec![1, 2, 4];
    let result = Gpt::new(16, 20, 16, &heads_schedule, 4, false);
    let msg = match result {
        Ok(_) => panic!("expected an error for a mismatched schedule length"),
        Err(e) => e.text(),
    };
    assert!(
        msg.contains("num_blocks") || msg.contains("entries"),
        "expected a schedule-length error, got: {msg}"
    );
}

#[test]
fn test_gpt_new_rejects_non_divisor_head_count() {
    let heads_schedule = vec![1, 2, 3, 8];
    let result = Gpt::new(16, 20, 16, &heads_schedule, 4, false);
    let msg = match result {
        Ok(_) => panic!("expected an error for a non-divisor head count"),
        Err(e) => e.text(),
    };
    assert!(
        msg.contains("block 2") && msg.contains("divisible"),
        "expected a per-block divisibility error naming block 2, got: {msg}"
    );
}

#[test]
fn tied_models_have_no_output_weights() {
    let schedule = vec![2, 2];
    let tied = Gpt::new(8, 20, 16, &schedule, 2, true).unwrap();
    let own = Gpt::new(8, 20, 16, &schedule, 2, false).unwrap();
    let names = |g: &Gpt| g.variables().iter().map(|v| v.name.clone()).collect::<Vec<_>>();
    assert!(!names(&tied).contains(&"lm_head.weight".to_string()));
    assert!(names(&tied).contains(&"lm_head.bias".to_string()));
    assert!(names(&own).contains(&"lm_head.weight".to_string()));
    assert_eq!(names(&own).len(), names(&tied).len() + 1);
}

#[test]
fn estimates_count_the_variables() {
    for (vocab, block, hidden, schedule) in
        [(14, 32, 32, vec![8, 8, 8, 8, 8, 8]), (20, 8, 16, vec![1, 2, 4]), (5, 3, 6, vec![])]
    {
        let gpt = Gpt::new(block, vocab, hidden, &schedule, schedule.len(), false).unwrap();
        let sum: usize =
            gpt.variables().iter().map(|v| v.dims.iter().product::<usize>()).sum();
        assert_eq!(
            estimate_params("gpt", vocab, block, hidden, schedule.len()),
            Some(sum)
        );
    }
    let m = LanguageModel::new_bigram(7);
    let vars = m.variables();
    assert_eq!(vars.len(), 1);
    assert_eq!(vars[0].dims, vec![7, 7]);
}

#[test]
fn long_sequences_are_refused() {
    let gpt = Gpt::new(8, 20, 16, &vec![2], 1, false).unwrap();
    assert!(gpt.check_sequence(8).is_ok());
    assert!(gpt.check_sequence(9).is_err());
    let e = gpt.mismatch_error("m.bin", "shape mismatch").text();
    assert!(e.contains("m.bin") && e.contains("shape mismatch"));
}

#[test]
fn models_know_their_architecture() {
    let m = LanguageModel::new(ModelType::Gpt, 8, 20, 16, &vec![4], 2, true).unwrap();
    assert_eq!(m.get_model_type(), ModelType::Gpt);
    assert_eq!(m.get_block_size(), 8);
    assert_eq!(m.get_vocab_size(), 20);
    assert_eq!(m.get_hidden_size(), 16);
    assert_eq!(m.get_num_blocks(), 2);
    assert_eq!(m.get_heads_schedule(), vec![4, 4]);
    assert_eq!(m.get_num_heads(), 4);
    assert!(m.get_tie_embeddings());
    let s = m.snapshot().unwrap();
    assert_eq!(s.get_heads_schedule(), vec![4, 4]);
    assert!(s.get_tie_embeddings());
    assert!(matches!(
        LanguageModel::new(ModelType::Gpt, 8, 20, 16, &vec![4, 4, 4], 2, true),
        Err(SmolError::InvalidArgument(_))
    ));
    let b = LanguageModel::new(ModelType::Bigram, 8, 20, 16, &vec![4], 2, false).unwrap();
    assert_eq!(b.get_model_type(), ModelType::Bigram);
    let n = LanguageModel::new_ngram(13, 3);
    assert_eq!(n.get_model_type(), ModelType::Ngram);
    assert_eq!(n.get_vocab_size(), 13);
}

#[test]
fn powers_overflow_safely() {
    assert_eq!(checked_power(13, 3), Some(2197));
    assert_eq!(checked_power(0, 0), Some(1));
    assert_eq!(checked_power(usize::MAX, 2), None);
}

#[test]
fn ngram_keys_stay_in_the_table() {
    let model = NgramLM::new(5, 4);
    let row: Vec<u32> = (0..40).map(|i| (i * 7) % 5).collect();
    for k in model.compute_keys(&row) {
        assert!((k as usize) < model.num_keys());
    }
}

#[test]
fn contexts_are_cut_at_the_front() {
    assert_eq!(truncate_context(&vec![1, 2, 3, 4], 2), vec![3, 4]);
    assert_eq!(truncate_context(&vec![1, 2], 5), vec![1, 2]);
    assert_eq!(truncate_context(&vec![], 5), Vec::<u32>::new());
}

#[test]
fn decoding_stops_at_the_token_or_the_limit() {
    let mut d = Decoder::start(&vec![5, 6], 4, Some(9), 3);
    assert_eq!(d.context(), Some(vec![5, 6]));
    d.push(7);
    assert_eq!(d.context(), Some(vec![5, 6, 7]));
    d.push(8);
    assert_eq!(d.context(), Some(vec![6, 7, 8]));
    d.push(9);
    assert_eq!(d.context(), None);
    assert_eq!(d.new_tokens(), vec![7, 8, 9]);
    let mut d = Decoder::start(&vec![5], 2, None, 8);
    d.push(9);
    d.push(9);
    assert_eq!(d.context(), None);
    assert_eq!(d.new_tokens().len(), 2);
}

#[test]
fn unprompted_decoding_starts_from_token_zero() {
    let mut d = Decoder::start_unprompted(3, 2);
    let first = d.context().unwrap();
    assert_eq!(first, vec![0]);
    while d.context().is_some() {
        d.push(4);
    }
    assert!(!d.new_tokens().is_empty());
}

#[test]
fn completions_are_planned() {
    let p = plan_completion(&vec![1, 2, 3], &vec![4, 5], 10).unwrap();
    assert_eq!(p.context, vec![1, 2, 3, 4, 5]);
    assert_eq!((p.pred_start, p.pred_end), (2, 4));
    assert!(plan_completion(&vec![1, 2, 3], &vec![], 10).is_none());
    assert!(lite_step_ready(2, 2));
    assert!(!lite_step_ready(0, 0));
    assert!(full_step_ready(2, 2, 2, 2, 1));
    assert!(!full_step_ready(2, 2, 2, 2, 0));
    assert!(!full_step_ready(2, 2, 1, 2, 1));
}

#[test]
fn deviations_come_before_gains() {
    assert_eq!(weight_init(false, false), WeightInit::Library);
    assert_eq!(weight_init(true, false), WeightInit::Deviation);
    assert_eq!(weight_init(true, true), WeightInit::Deviation);
    assert_eq!(weight_init(false, true), WeightInit::Gain);
}

#[test]
fn sizes_that_cannot_be_counted_are_told() {
    assert!(can_estimate("gpt", 14, 32, 32, 6));
    assert!(!can_estimate("gpt", usize::MAX, 1, 1, 0));
    assert!(!can_estimate("gpt", 1, 1, 1 << 40, 1));
    assert!(can_estimate("gpt", 1, 1, 1 << 40, 0));
    assert!(can_estimate("bigram", 1 << 31, 0, 0, 0));
    assert!(!can_estimate("bigram", 1 << 32, 0, 0, 0));
    assert!(can_estimate("mystery", usize::MAX, usize::MAX, usize::MAX, usize::MAX));
    assert_eq!(estimate_params("ngram", 13, 3, 0, 0), Some(13 * 13 * 13 * 13));
    assert_eq!(estimate_params("ngram", usize::MAX, 3, 0, 0), Some(usize::MAX));
    assert_eq!(estimate_params("ngram", 2, 4_294_967_295, 0, 0), Some(usize::MAX));
    assert_eq!(estimate_params("ngram", 2, 62, 0, 0), Some(1 << 63));
    assert_eq!(estimate_params("ngram", 2, 63, 0, 0), Some(usize::MAX));
    assert_eq!(estimate_params("ngram", 1, 4_294_967_296, 0, 0), Some(1));
    assert!(LanguageModel::can_build(ModelType::Ngram, 4, 13));
    assert!(!LanguageModel::can_build(ModelType::Ngram, 0, 13));
    assert!(!LanguageModel::can_build(ModelType::Ngram, 40, 13));
    assert!(LanguageModel::can_build(ModelType::Bigram, 0, 13));
}

#[test]
fn variables_have_names_of_their_own() {
    for tied in [false, true] {
        let gpt = Gpt::new(8, 20, 24, &vec![12, 1, 2, 3, 12, 1, 1, 1, 1, 1, 1, 1], 12, tied).unwrap();
        let mut names: Vec<String> = gpt.variables().into_iter().map(|v| v.name).collect();
        let all = names.len();
        names.sort();
        names.dedup();
        assert_eq!(names.len(), all);
        assert!(names.contains(&"blocks.block_11.attn.head_0.key.weight".to_string()));
        assert!(names.contains(&"blocks.block_0.attn.head_11.value.weight".to_string()));
    }
}

fn generated(limit: usize, stop: u32) -> Vec<u32> {
    let mut d = Decoder::start(&vec![3, 1], limit, Some(stop), 4);
    while let Some(context) = d.context() {
        d.push(context.iter().sum::<u32>() % 11);
    }
    d.new_tokens()
}

#[test]
fn a_smaller_limit_gives_a_prefix() {
    let stop = generated(20, 99)[6];
    let long = generated(20, stop);
    assert_eq!(long.last(), Some(&stop));
    assert_eq!(long.iter().filter(|&&t| t == stop).count(), 1);
    for limit in 0..20 {
        let short = generated(limit, stop);
        assert_eq!(short, long[..limit.min(long.len())].to_vec());
    }
}

#[test]
fn no_tokens_need_no_prompt() {
    let d = Decoder::start(&vec![], 0, Some(1), 0);
    assert_eq!(d.context(), None);
    assert_eq!(d.new_tokens(), Vec::<u32>::new());
    for n in [0, 1] {
        let d = Decoder::start_unprompted(n, 0);
        assert_eq!(d.context(), None);
        assert_eq!(d.tokens, vec![0]);
    }
}
