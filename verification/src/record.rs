//! The rows of the model registry, and how a training run becomes one.
use crate::args::EvalMode;
use crate::args::ModelType;
use crate::args::TokenizerType;
use crate::corpus::corpus_pairs;
use crate::corpus::is_operand_range;
use crate::corpus::law_operand_range_is_tight;
use crate::corpus::operand_range;
use crate::layout::estimate_fits;
use crate::layout::estimate_params;
use crate::layout::params_estimate;
use crate::number::decimal;
use crate::number::push_decimal;
use crate::number::push_signed;
use crate::number::signed_decimal;
use crate::paths::derive_id;
use crate::paths::derived_id;
use crate::paths::file_name_text;
use crate::paths::file_stem_text;
use crate::paths::file_name;
use crate::paths::name_or_empty;
use crate::paths::stem_or_empty;
use crate::schedule::csv;
use crate::schedule::heads_schedule_to_csv;
use crate::schedule::is_representative;
use crate::schedule::law_representative_is_least;
use crate::schedule::law_schedule_reads_back;
use crate::schedule::representative_heads;
use crate::schedule::stored_schedule;
use crate::text::opt_text;
use crate::thousands::push_thousands;
use crate::thousands::thousands_text;
use crate::training::TrainOutcome;
use std::time::SystemTime;
use std::time::UNIX_EPOCH;
use vstd::prelude::*;
use vstd::string::*;

verus! {

/// One entry of a model list that registries are seeded from.
#[derive(Debug, Clone)]
pub struct ModelEntry {
    pub id: String,
    pub path: String,
    pub model_type: String,
    pub tokenizer: String,
    pub vocab_size: usize,
    pub block_size: usize,
    pub hidden_size: usize,
    pub num_heads: usize,
    pub num_blocks: usize,
    pub dataset: String,
    pub dataset_name: String,
    pub eval_min: i64,
    pub eval_max: i64,
    pub eval_samples: usize,
    pub note: String,
}

/// A registered model.
#[derive(Debug, Clone)]
pub struct ModelRecord {
    pub id: String,
    pub path: String,
    pub model_type: String,
    pub tokenizer: String,
    pub vocab_size: i64,
    pub block_size: i64,
    pub hidden_size: i64,
    /// The smallest head count.
    pub num_heads: i64,
    pub num_blocks: i64,
    /// The head count of each block, separated by commas; empty where it was
    /// not recorded.
    pub heads_schedule: String,
    /// Whether training windows started where lines start, when known.
    pub aligned_windows: Option<bool>,
    pub dataset: String,
    pub dataset_name: String,
    pub eval_min: i64,
    pub eval_max: i64,
    pub eval_samples: i64,
    pub note: String,
    pub params_estimate: i64,
    /// The model that this one is a variant of, if it is one.
    pub base_model_id: Option<String>,
    pub created_at: i64,
    pub updated_at: i64,
}

/// A registered model as a mathematical value.
pub struct ModelView {
    pub id: Seq<char>,
    pub path: Seq<char>,
    pub model_type: Seq<char>,
    pub tokenizer: Seq<char>,
    pub vocab_size: i64,
    pub block_size: i64,
    pub hidden_size: i64,
    pub num_heads: i64,
    pub num_blocks: i64,
    pub heads_schedule: Seq<char>,
    pub aligned_windows: Option<bool>,
    pub dataset: Seq<char>,
    pub dataset_name: Seq<char>,
    pub eval_min: i64,
    pub eval_max: i64,
    pub eval_samples: i64,
    pub note: Seq<char>,
    pub params_estimate: i64,
    pub base_model_id: Option<Seq<char>>,
    pub created_at: i64,
    pub updated_at: i64,
}

impl View for ModelRecord {
    type V = ModelView;

    open spec fn view(&self) -> ModelView {
        ModelView {
            id: self.id@,
            path: self.path@,
            model_type: self.model_type@,
            tokenizer: self.tokenizer@,
            vocab_size: self.vocab_size,
            block_size: self.block_size,
            hidden_size: self.hidden_size,
            num_heads: self.num_heads,
            num_blocks: self.num_blocks,
            heads_schedule: self.heads_schedule@,
            aligned_windows: self.aligned_windows,
            dataset: self.dataset@,
            dataset_name: self.dataset_name@,
            eval_min: self.eval_min,
            eval_max: self.eval_max,
            eval_samples: self.eval_samples,
            note: self.note@,
            params_estimate: self.params_estimate,
            base_model_id: opt_text(self.base_model_id),
            created_at: self.created_at,
            updated_at: self.updated_at,
        }
    }
}

/// What a training run knows of the model that it trains.
#[derive(Debug, Clone, Copy)]
pub struct TrainingMeta<'a> {
    pub model_type: ModelType,
    pub tokenizer: TokenizerType,
    pub block_size: usize,
    pub hidden_size: usize,
    pub heads_schedule: &'a Vec<usize>,
    pub num_blocks: usize,
    pub aligned_windows: bool,
    pub dataset_path: &'a str,
    pub model_path: &'a str,
    pub actual_vocab_size: usize,
    pub eval_min: Option<i64>,
    pub eval_max: Option<i64>,
    pub eval_samples: usize,
    pub eval_mode: EvalMode,
    pub seed: Option<u64>,
    /// The model that the trained one is a variant of, if it is one.
    pub base_model_id: Option<&'a str>,
}

impl<'a> TrainingMeta<'a> {
    /// The same run for a variant of the model: another path, and a link to the
    /// base model.
    pub fn with_variant(&self, variant_path: &'a str, base_id: &'a str) -> (r: TrainingMeta<'a>)
        ensures
            r == (TrainingMeta { model_path: variant_path, base_model_id: Some(base_id), ..*self }),
    {
        TrainingMeta { model_path: variant_path, base_model_id: Some(base_id), ..*self }
    }
}

/// The seconds since 1970-01-01T00:00:00Z, by the system's clock, from
/// `SystemTime::now` and `SystemTime::duration_since`; `None` where the clock
/// stands before that moment. Nothing is claimed of what the clock says.
#[verifier::external_body]
pub fn clock_seconds() -> (r: Option<u64>)
{
    match SystemTime::now().duration_since(UNIX_EPOCH) {
        Ok(d) => Some(d.as_secs()),
        Err(_) => None,
    }
}

/// A reading of the clock as a timestamp; a missing one counts as zero.
pub open spec fn timestamp_of(seconds: Option<u64>) -> i64 {
    match seconds {
        Some(s) => s as i64,
        None => 0,
    }
}

/// A reading of the clock as a timestamp; a missing one counts as zero.
pub fn unix_timestamp(seconds: Option<u64>) -> (r: i64)
    ensures
        r == timestamp_of(seconds),
{
    match seconds {
        Some(s) => {
            #[verifier::truncate]
            let t: i64 = s as i64;
            t
        },
        None => 0,
    }
}

/// What a call of `f` gives.
fn result_of<R, F: Fn() -> R>(f: F) -> (r: R)
    requires
        call_requires(f, ()),
    ensures
        call_ensures(f, (), r),
{
    f()
}

/// The current time in seconds since 1970-01-01T00:00:00Z: the timestamp of a
/// reading that the clock gave.
pub fn now_unix() -> (r: i64)
    ensures
        exists|reading: Option<u64>| #[trigger]
            call_ensures(clock_seconds, (), reading) && r == timestamp_of(reading),
{
    let reading: Option<u64> = result_of(clock_seconds);
    unix_timestamp(reading)
}

/// The name under which a model type is stored.
pub open spec fn model_type_name(t: ModelType) -> Seq<char> {
    match t {
        ModelType::Gpt => "gpt"@,
        ModelType::Bigram => "bigram"@,
        ModelType::Ngram => "ngram"@,
    }
}

/// The name under which a tokenizer is stored.
pub open spec fn tokenizer_name(t: TokenizerType) -> Seq<char> {
    match t {
        TokenizerType::Char => "char"@,
        TokenizerType::Bpe => "bpe"@,
    }
}

fn model_type_text(t: ModelType) -> (r: String)
    ensures
        r@ == model_type_name(t),
{
    match t {
        ModelType::Gpt => "gpt".to_owned(),
        ModelType::Bigram => "bigram".to_owned(),
        ModelType::Ngram => "ngram".to_owned(),
    }
}

fn tokenizer_text(t: TokenizerType) -> (r: String)
    ensures
        r@ == tokenizer_name(t),
{
    match t {
        TokenizerType::Char => "char".to_owned(),
        TokenizerType::Bpe => "bpe".to_owned(),
    }
}

/// Whether a schedule has the same head count in every block.
pub open spec fn schedule_is_uniform(v: Seq<usize>) -> bool {
    forall|i: int, j: int| 0 <= i < v.len() && 0 <= j < v.len() ==> #[trigger] v[i] == #[trigger] v[j]
}

fn is_uniform_schedule(v: &Vec<usize>) -> (r: bool)
    ensures
        r == schedule_is_uniform(v@),
{
    let mut i: usize = 1;
    while i < v.len()
        invariant
            i >= 1,
            forall|k: int| 0 <= k < i && k < v@.len() ==> #[trigger] v@[k] == v@[0],
        decreases v.len() - i,
    {
        if v[i] != v[0] {
            assert(v@[i as int] != v@[0]);
            return false;
        }
        i += 1;
    }
    true
}

/// The note of a trained model.
pub open spec fn note_text(
    model_type: Seq<char>,
    params_estimate: int,
    block_size: int,
    hidden_size: int,
    num_heads: int,
    num_blocks: int,
    tokenizer: Seq<char>,
    epochs_run: int,
    dataset_filename: Seq<char>,
    seed: Option<u64>,
    early_stopped: bool,
    schedule: Seq<usize>,
) -> Seq<char> {
    model_type + " "@ + thousands_text(params_estimate) + " params (block="@ + signed_decimal(
        block_size,
    ) + " hidden="@ + signed_decimal(hidden_size) + " heads="@ + signed_decimal(num_heads)
        + " blocks="@ + signed_decimal(num_blocks) + "), "@ + tokenizer + " tokenizer, trained "@
        + decimal(epochs_run as nat) + " epochs on "@ + dataset_filename + ", seed "@ + (match seed {
        Some(s) => decimal(s as nat),
        None => "random"@,
    }) + (if early_stopped {
        ", early-stopped at epoch "@ + decimal(epochs_run as nat)
    } else {
        ""@
    }) + (if schedule_is_uniform(schedule) {
        ""@
    } else {
        ", heads-schedule=["@ + csv(schedule) + "] (reload with --num-heads \""@ + csv(schedule)
            + "\")"@
    })
}

/// The note of a trained model: its size and shape, how it was trained, and
/// for a schedule that is not uniform what reloads it.
pub fn generate_note(
    model_type: &str,
    params_estimate: i64,
    block_size: i64,
    hidden_size: i64,
    num_heads: i64,
    num_blocks: i64,
    tokenizer: &str,
    epochs_run: usize,
    dataset_filename: &str,
    seed: Option<u64>,
    early_stopped: bool,
    heads_schedule: &Vec<usize>,
) -> (r: String)
    ensures
        r@ == note_text(
            model_type@,
            params_estimate as int,
            block_size as int,
            hidden_size as int,
            num_heads as int,
            num_blocks as int,
            tokenizer@,
            epochs_run as int,
            dataset_filename@,
            seed,
            early_stopped,
            heads_schedule@,
        ),
{
    let mut m: String = model_type.to_owned();
    m.append(" ");
    push_thousands(&mut m, params_estimate);
    m.append(" params (block=");
    push_signed(&mut m, block_size);
    m.append(" hidden=");
    push_signed(&mut m, hidden_size);
    m.append(" heads=");
    push_signed(&mut m, num_heads);
    m.append(" blocks=");
    push_signed(&mut m, num_blocks);
    m.append("), ");
    m.append(tokenizer);
    m.append(" tokenizer, trained ");
    push_decimal(&mut m, epochs_run as u64);
    m.append(" epochs on ");
    m.append(dataset_filename);
    m.append(", seed ");
    match seed {
        Some(s) => {
            push_decimal(&mut m, s);
        },
        None => {
            m.append("random");
        },
    }
    let ghost head = m@;
    let mut early: String = "".to_owned();
    if early_stopped {
        early = ", early-stopped at epoch ".to_owned();
        push_decimal(&mut early, epochs_run as u64);
    }
    m.append(early.as_str());
    let mut clause: String = "".to_owned();
    if !is_uniform_schedule(heads_schedule) {
        let list: String = heads_schedule_to_csv(heads_schedule);
        clause = ", heads-schedule=[".to_owned();
        clause.append(list.as_str());
        clause.append("] (reload with --num-heads \"");
        clause.append(list.as_str());
        clause.append("\")");
    }
    m.append(clause.as_str());
    m
}

/// The operand range for evaluations when no other is known.
pub const DEFAULT_EVAL_MIN: i64 = 0;

/// The operand range for evaluations when no other is known.
pub const DEFAULT_EVAL_MAX: i64 = 999;

/// Whether `(lo, hi)` is the operand range of a model: both bounds as they were
/// given; else, in smart mode, the range of the corpus, when it can be read and
/// has one; else the default.
pub open spec fn is_eval_range(
    min: Option<i64>,
    max: Option<i64>,
    mode: EvalMode,
    corpus: Option<Seq<char>>,
    lo: i64,
    hi: i64,
) -> bool {
    match (min, max) {
        (Some(a), Some(b)) => lo == a && hi == b,
        _ => match (mode, corpus) {
            (EvalMode::Smart, Some(c)) => if corpus_pairs(c).len() > 0 {
                is_operand_range(corpus_pairs(c), lo as int, hi as int)
            } else {
                lo == DEFAULT_EVAL_MIN && hi == DEFAULT_EVAL_MAX
            },
            _ => lo == DEFAULT_EVAL_MIN && hi == DEFAULT_EVAL_MAX,
        },
    }
}

/// The operand range to store for a model. `corpus` is the text of its dataset,
/// if that could be read; only smart mode without both bounds looks at it.
pub fn resolve_eval_range(meta: &TrainingMeta, corpus: Option<&str>) -> (r: (i64, i64))
    ensures
        is_eval_range(
            meta.eval_min,
            meta.eval_max,
            meta.eval_mode,
            match corpus {
                Some(c) => Some(c@),
                None => None,
            },
            r.0,
            r.1,
        ),
{
    match (meta.eval_min, meta.eval_max) {
        (Some(lo), Some(hi)) => (lo, hi),
        _ => match (meta.eval_mode, corpus) {
            (EvalMode::Smart, Some(c)) => match operand_range(c) {
                Some((lo, hi)) => {
                    proof {
                        let k = choose|i: int|
                            0 <= i < corpus_pairs(c@).len() && ((#[trigger] corpus_pairs(c@)[i]).a
                                == lo || corpus_pairs(c@)[i].b == lo);
                        assert(0 <= k < corpus_pairs(c@).len());
                    }
                    (lo, hi)
                },
                None => (DEFAULT_EVAL_MIN, DEFAULT_EVAL_MAX),
            },
            _ => (DEFAULT_EVAL_MIN, DEFAULT_EVAL_MAX),
        },
    }
}

/// There is one least range that holds every operand.
pub proof fn law_operand_range_is_unique(
    corpus: Seq<char>,
    lo1: int,
    hi1: int,
    lo2: int,
    hi2: int,
)
    requires
        is_operand_range(corpus_pairs(corpus), lo1, hi1),
        is_operand_range(corpus_pairs(corpus), lo2, hi2),
    ensures
        lo1 == lo2,
        hi1 == hi2,
{
    let p = corpus_pairs(corpus);
    let a = choose|i: int| 0 <= i < p.len() && ((#[trigger] p[i]).a == lo1 || p[i].b == lo1);
    let b = choose|i: int| 0 <= i < p.len() && ((#[trigger] p[i]).a == lo2 || p[i].b == lo2);
    let c = choose|i: int| 0 <= i < p.len() && ((#[trigger] p[i]).a == hi1 || p[i].b == hi1);
    let d = choose|i: int| 0 <= i < p.len() && ((#[trigger] p[i]).a == hi2 || p[i].b == hi2);
    assert(lo2 <= p[a].a && lo2 <= p[a].b);
    assert(lo1 <= p[b].a && lo1 <= p[b].b);
    assert(hi2 >= p[c].a && hi2 >= p[c].b);
    assert(hi1 >= p[d].a && hi1 >= p[d].b);
}

/// The stored estimate of a parameter count; zero for an unknown type.
pub open spec fn stored_estimate(
    model_type: Seq<char>,
    vocab: usize,
    block: usize,
    hidden: usize,
    blocks: usize,
) -> i64 {
    match params_estimate(
        model_type,
        vocab as nat,
        block as nat,
        hidden as nat,
        blocks as nat,
    ) {
        Some(n) => (n as usize) as i64,
        None => 0,
    }
}

fn estimate_for_row(
    model_type: &str,
    vocab: usize,
    block: usize,
    hidden: usize,
    blocks: usize,
) -> (r: i64)
    requires
        estimate_fits(model_type@, vocab, block, hidden, blocks),
    ensures
        r == stored_estimate(model_type@, vocab, block, hidden, blocks),
{
    match estimate_params(model_type, vocab, block, hidden, blocks) {
        Some(n) => {
            #[verifier::truncate]
            let e: i64 = n as i64;
            e
        },
        None => 0,
    }
}

impl ModelRecord {
    /// Whether the record describes what `meta` and `outcome` say, with the
    /// timestamp `now`, the smallest head count `heads` and the operand range
    /// that `meta` and the corpus give.
    pub open spec fn describes(
        &self,
        meta: &TrainingMeta,
        outcome: &TrainOutcome,
        corpus: Option<Seq<char>>,
        now: i64,
    ) -> bool {
        let kind = model_type_name(meta.model_type);
        let estimate = stored_estimate(
            kind,
            meta.actual_vocab_size,
            meta.block_size,
            meta.hidden_size,
            meta.num_blocks,
        );
        &&& self.id@ == derived_id(meta.model_path@)
        &&& self.path@ == meta.model_path@
        &&& self.model_type@ == kind
        &&& self.tokenizer@ == tokenizer_name(meta.tokenizer)
        &&& self.vocab_size == meta.actual_vocab_size as i64
        &&& self.block_size == meta.block_size as i64
        &&& self.hidden_size == meta.hidden_size as i64
        &&& exists|heads: usize| #[trigger]
            is_representative(meta.heads_schedule@, heads) && self.num_heads == heads as i64
        &&& self.num_blocks == meta.num_blocks as i64
        &&& self.heads_schedule@ == csv(meta.heads_schedule@)
        &&& self.aligned_windows == Some(meta.aligned_windows)
        &&& self.dataset@ == meta.dataset_path@
        &&& self.dataset_name@ == stem_or_empty(meta.dataset_path@)
        &&& is_eval_range(
            meta.eval_min,
            meta.eval_max,
            meta.eval_mode,
            corpus,
            self.eval_min,
            self.eval_max,
        )
        &&& self.eval_samples == meta.eval_samples as i64
        &&& self.note@ == note_text(
            kind,
            estimate as int,
            meta.block_size as i64 as int,
            meta.hidden_size as i64 as int,
            self.num_heads as int,
            meta.num_blocks as i64 as int,
            tokenizer_name(meta.tokenizer),
            outcome.epochs_run as int,
            name_or_empty(meta.dataset_path@),
            meta.seed,
            outcome.early_stopped,
            meta.heads_schedule@,
        )
        &&& self.params_estimate == estimate
        &&& opt_text(self.base_model_id) == (match meta.base_model_id {
            Some(b) => Some(b@),
            None => None,
        })
        &&& self.created_at == now
        &&& self.updated_at == now
    }

    /// The record of a training run at the time `now`. `corpus` is the text of
    /// the dataset, if it could be read.
    pub fn from_training_at(
        meta: &TrainingMeta,
        outcome: &TrainOutcome,
        corpus: Option<&str>,
        now: i64,
    ) -> (r: ModelRecord)
        requires
            estimate_fits(
                model_type_name(meta.model_type),
                meta.actual_vocab_size,
                meta.block_size,
                meta.hidden_size,
                meta.num_blocks,
            ),
        ensures
            r.describes(
                meta,
                outcome,
                match corpus {
                    Some(c) => Some(c@),
                    None => None,
                },
                now,
            ),
    {
        let model_type: String = model_type_text(meta.model_type);
        let tokenizer: String = tokenizer_text(meta.tokenizer);
        let params_estimate: i64 = estimate_for_row(
            model_type.as_str(),
            meta.actual_vocab_size,
            meta.block_size,
            meta.hidden_size,
            meta.num_blocks,
        );
        let heads: usize = representative_heads(meta.heads_schedule);
        #[verifier::truncate]
        let num_heads: i64 = heads as i64;
        #[verifier::truncate]
        let block_size: i64 = meta.block_size as i64;
        #[verifier::truncate]
        let hidden_size: i64 = meta.hidden_size as i64;
        #[verifier::truncate]
        let num_blocks: i64 = meta.num_blocks as i64;
        #[verifier::truncate]
        let vocab_size: i64 = meta.actual_vocab_size as i64;
        #[verifier::truncate]
        let eval_samples: i64 = meta.eval_samples as i64;
        let dataset_filename: String = file_name_text(meta.dataset_path);
        let note: String = generate_note(
            model_type.as_str(),
            params_estimate,
            block_size,
            hidden_size,
            num_heads,
            num_blocks,
            tokenizer.as_str(),
            outcome.epochs_run,
            dataset_filename.as_str(),
            meta.seed,
            outcome.early_stopped,
            meta.heads_schedule,
        );
        let (eval_min, eval_max) = resolve_eval_range(meta, corpus);
        ModelRecord {
            id: derive_id(meta.model_path),
            path: meta.model_path.to_owned(),
            model_type,
            tokenizer,
            vocab_size,
            block_size,
            hidden_size,
            num_heads,
            num_blocks,
            heads_schedule: heads_schedule_to_csv(meta.heads_schedule),
            aligned_windows: Some(meta.aligned_windows),
            dataset: meta.dataset_path.to_owned(),
            dataset_name: file_stem_text(meta.dataset_path),
            eval_min,
            eval_max,
            eval_samples,
            note,
            params_estimate,
            base_model_id: match meta.base_model_id {
                Some(b) => Some(b.to_owned()),
                None => None,
            },
            created_at: now,
            updated_at: now,
        }
    }

    /// The record of a training run, as of the time that the clock gives.
    pub fn from_training(
        meta: &TrainingMeta,
        outcome: &TrainOutcome,
        corpus: Option<&str>,
    ) -> (r: ModelRecord)
        requires
            estimate_fits(
                model_type_name(meta.model_type),
                meta.actual_vocab_size,
                meta.block_size,
                meta.hidden_size,
                meta.num_blocks,
            ),
        ensures
            r.describes(
                meta,
                outcome,
                match corpus {
                    Some(c) => Some(c@),
                    None => None,
                },
                r.created_at,
            ),
            call_ensures(now_unix, (), r.created_at),
    {
        let now: i64 = result_of(now_unix);
        Self::from_training_at(meta, outcome, corpus, now)
    }

    /// The record of an entry of a model list, at the time `now`. `vocab_size`
    /// is that of the tokenizer built from the dataset; where the dataset could
    /// not be read the entry's own stands in.
    pub fn from_entry(entry: &ModelEntry, actual_vocab: Option<usize>, now: i64) -> (r: ModelRecord)
        requires
            estimate_fits(
                entry.model_type@,
                entry_vocab(entry, actual_vocab),
                entry.block_size,
                entry.hidden_size,
                entry.num_blocks,
            ),
        ensures
            r.id@ == entry.id@,
            r.path@ == entry.path@,
            r.model_type@ == entry.model_type@,
            r.tokenizer@ == entry.tokenizer@,
            r.vocab_size == entry_vocab(entry, actual_vocab) as i64,
            actual_vocab matches Some(v) ==> r.vocab_size == v as i64,
            actual_vocab is None ==> r.vocab_size == entry.vocab_size as i64,
            r.block_size == entry.block_size as i64,
            r.hidden_size == entry.hidden_size as i64,
            r.num_heads == entry.num_heads as i64,
            r.num_blocks == entry.num_blocks as i64,
            r.heads_schedule@ == decimal(entry.num_heads as nat),
            r.aligned_windows is None,
            r.dataset@ == entry.dataset@,
            r.dataset_name@ == entry.dataset_name@,
            r.eval_min == entry.eval_min,
            r.eval_max == entry.eval_max,
            r.eval_samples == entry.eval_samples as i64,
            r.note@ == entry.note@,
            r.params_estimate == stored_estimate(
                entry.model_type@,
                entry_vocab(entry, actual_vocab),
                entry.block_size,
                entry.hidden_size,
                entry.num_blocks,
            ),
            r.base_model_id is None,
            r.created_at == now,
            r.updated_at == now,
    {
        let vocab: usize = match actual_vocab {
            Some(v) => v,
            None => entry.vocab_size,
        };
        let params_estimate: i64 = estimate_for_row(
            entry.model_type.as_str(),
            vocab,
            entry.block_size,
            entry.hidden_size,
            entry.num_blocks,
        );
        let mut heads_schedule: String = String::new();
        push_decimal(&mut heads_schedule, entry.num_heads as u64);
        assert(heads_schedule@ =~= decimal(entry.num_heads as nat));
        #[verifier::truncate]
        let vocab_size: i64 = vocab as i64;
        #[verifier::truncate]
        let block_size: i64 = entry.block_size as i64;
        #[verifier::truncate]
        let hidden_size: i64 = entry.hidden_size as i64;
        #[verifier::truncate]
        let num_heads: i64 = entry.num_heads as i64;
        #[verifier::truncate]
        let num_blocks: i64 = entry.num_blocks as i64;
        #[verifier::truncate]
        let eval_samples: i64 = entry.eval_samples as i64;
        ModelRecord {
            id: entry.id.clone(),
            path: entry.path.clone(),
            model_type: entry.model_type.clone(),
            tokenizer: entry.tokenizer.clone(),
            vocab_size,
            block_size,
            hidden_size,
            num_heads,
            num_blocks,
            heads_schedule,
            aligned_windows: None,
            dataset: entry.dataset.clone(),
            dataset_name: entry.dataset_name.clone(),
            eval_min: entry.eval_min,
            eval_max: entry.eval_max,
            eval_samples,
            note: entry.note.clone(),
            params_estimate,
            base_model_id: None,
            created_at: now,
            updated_at: now,
        }
    }
}

/// The vocabulary size that counts for an entry.
pub open spec fn entry_vocab(entry: &ModelEntry, actual_vocab: Option<usize>) -> usize {
    match actual_vocab {
        Some(v) => v,
        None => entry.vocab_size,
    }
}

/// The schedule of a trained model is read back from its record as it was, and
/// the record was created when it was last updated.
pub proof fn law_recorded_schedule_reads_back(
    rec: ModelRecord,
    meta: &TrainingMeta,
    outcome: &TrainOutcome,
    corpus: Option<Seq<char>>,
    now: i64,
)
    requires
        rec.describes(meta, outcome, corpus, now),
        meta.heads_schedule@.len() > 0,
    ensures
        stored_schedule(rec.heads_schedule@, rec.num_heads as int, rec.num_blocks as int)
            == meta.heads_schedule@,
        rec.created_at == rec.updated_at,
{
    law_schedule_reads_back(meta.heads_schedule@, rec.num_heads as int, rec.num_blocks as int);
}

/// A record says what was trained: each of its entries is what the run knew, or
/// is derived from it, and numbers that fit are stored as they are.
pub proof fn law_record_says_what_was_trained(
    rec: ModelRecord,
    meta: &TrainingMeta,
    outcome: &TrainOutcome,
    corpus: Option<Seq<char>>,
    now: i64,
)
    requires
        rec.describes(meta, outcome, corpus, now),
    ensures
        rec.id@ == derived_id(meta.model_path@),
        rec.path@ == meta.model_path@,
        rec.model_type@ == match meta.model_type {
            ModelType::Gpt => "gpt"@,
            ModelType::Bigram => "bigram"@,
            ModelType::Ngram => "ngram"@,
        },
        rec.tokenizer@ == match meta.tokenizer {
            TokenizerType::Char => "char"@,
            TokenizerType::Bpe => "bpe"@,
        },
        is_eval_range(
            meta.eval_min,
            meta.eval_max,
            meta.eval_mode,
            corpus,
            rec.eval_min,
            rec.eval_max,
        ),
        rec.params_estimate == stored_estimate(
            rec.model_type@,
            meta.actual_vocab_size,
            meta.block_size,
            meta.hidden_size,
            meta.num_blocks,
        ),
        rec.note@ == note_text(
            rec.model_type@,
            rec.params_estimate as int,
            rec.block_size as int,
            rec.hidden_size as int,
            rec.num_heads as int,
            rec.num_blocks as int,
            rec.tokenizer@,
            outcome.epochs_run as int,
            name_or_empty(meta.dataset_path@),
            meta.seed,
            outcome.early_stopped,
            meta.heads_schedule@,
        ),
        file_name(meta.dataset_path@) matches Some(n) ==> name_or_empty(meta.dataset_path@) == n,
        rec.dataset@ == meta.dataset_path@,
        rec.dataset_name@ == stem_or_empty(meta.dataset_path@),
        meta.actual_vocab_size <= i64::MAX ==> rec.vocab_size == meta.actual_vocab_size,
        meta.block_size <= i64::MAX ==> rec.block_size == meta.block_size,
        meta.hidden_size <= i64::MAX ==> rec.hidden_size == meta.hidden_size,
        meta.num_blocks <= i64::MAX ==> rec.num_blocks == meta.num_blocks,
        meta.eval_samples <= i64::MAX ==> rec.eval_samples == meta.eval_samples,
        rec.aligned_windows == Some(meta.aligned_windows),
        rec.heads_schedule@ == csv(meta.heads_schedule@),
        forall|i: int|
            0 <= i < meta.heads_schedule@.len() && meta.heads_schedule@[i] <= i64::MAX
                ==> rec.num_heads <= #[trigger] meta.heads_schedule@[i],
        meta.heads_schedule@.len() == 0 ==> rec.num_heads == 0,
        (forall|i: int|
            0 <= i < meta.heads_schedule@.len() ==> #[trigger] meta.heads_schedule@[i] <= i64::MAX)
            && meta.heads_schedule@.len() > 0 ==> exists|i: int|
            0 <= i < meta.heads_schedule@.len() && #[trigger] meta.heads_schedule@[i]
                == rec.num_heads,
        meta.base_model_id matches Some(b) ==> (rec.base_model_id matches Some(c) && c@ == b@),
        meta.base_model_id is None ==> rec.base_model_id is None,
        rec.created_at == now,
        rec.updated_at == now,
{
    let heads = choose|heads: usize| #[trigger]
        is_representative(meta.heads_schedule@, heads) && rec.num_heads == heads as i64;
    let v = meta.heads_schedule@;
    law_representative_is_least(v, heads);
    if v.len() > 0 {
        let k = choose|k: int| 0 <= k < v.len() && #[trigger] v[k] == heads;
        assert(v[k] == heads);
    }
}

/// The operand range of a model is the one that was given; otherwise, in smart
/// mode, the least one that holds the operands of its corpus; otherwise from 0 to
/// 999.
pub proof fn law_eval_range_is_given_or_read(
    min: Option<i64>,
    max: Option<i64>,
    mode: EvalMode,
    corpus: Option<Seq<char>>,
    lo: i64,
    hi: i64,
)
    requires
        is_eval_range(min, max, mode, corpus, lo, hi),
    ensures
        min is Some && max is Some ==> lo == min->0 && hi == max->0,
        (min is None || max is None) && !(mode is Smart) ==> lo == 0 && hi == 999,
        (min is None || max is None) && corpus is None ==> lo == 0 && hi == 999,
        (min is None || max is None) && mode is Smart && corpus is Some && corpus_pairs(
            corpus->0,
        ).len() == 0 ==> lo == 0 && hi == 999,
        (min is None || max is None) && mode is Smart && corpus is Some && corpus_pairs(
            corpus->0,
        ).len() > 0 ==> {
            let p = corpus_pairs(corpus->0);
            &&& forall|i: int|
                0 <= i < p.len() ==> lo <= (#[trigger] p[i]).a <= hi && lo <= p[i].b <= hi
            &&& exists|i: int| 0 <= i < p.len() && ((#[trigger] p[i]).a == lo || p[i].b == lo)
            &&& exists|i: int| 0 <= i < p.len() && ((#[trigger] p[i]).a == hi || p[i].b == hi)
        },
{
    if corpus is Some && is_operand_range(corpus_pairs(corpus->0), lo as int, hi as int) {
        law_operand_range_is_tight(corpus_pairs(corpus->0), lo as int, hi as int);
    }
}

/// A reading of the clock is its own timestamp, and none counts as zero. An
/// estimate is stored as it is, and none as zero.
pub proof fn law_stored_numbers(
    seconds: u64,
    model_type: Seq<char>,
    vocab: usize,
    block: usize,
    hidden: usize,
    blocks: usize,
)
    ensures
        timestamp_of(None) == 0,
        seconds <= i64::MAX ==> timestamp_of(Some(seconds)) == seconds,
        match params_estimate(
            model_type,
            vocab as nat,
            block as nat,
            hidden as nat,
            blocks as nat,
        ) {
            Some(n) => n <= i64::MAX && n <= usize::MAX ==> stored_estimate(
                model_type,
                vocab,
                block,
                hidden,
                blocks,
            ) == n,
            None => stored_estimate(model_type, vocab, block, hidden, blocks) == 0,
        },
{
}

/// The note of a model ends in what was special: an early stop is named with its
/// epoch, and a schedule that differs from block to block with what reloads it.
/// Otherwise it says the type, the size, the shape, the tokenizer, the epochs,
/// the dataset and the seed.
pub proof fn law_note_names_what_is_special(
    model_type: Seq<char>,
    params: int,
    block: int,
    hidden: int,
    heads: int,
    blocks: int,
    tokenizer: Seq<char>,
    epochs: int,
    dataset: Seq<char>,
    seed: u64,
    schedule: Seq<usize>,
)
    ensures
        ({
            let uniform = forall|i: int, j: int|
                0 <= i < schedule.len() && 0 <= j < schedule.len() ==> #[trigger] schedule[i]
                    == #[trigger] schedule[j];
            let note = |s: Option<u64>, early: bool, v: Seq<usize>|
                note_text(
                    model_type,
                    params,
                    block,
                    hidden,
                    heads,
                    blocks,
                    tokenizer,
                    epochs,
                    dataset,
                    s,
                    early,
                    v,
                );
            let plain = model_type + " "@ + thousands_text(params) + " params (block="@
                + signed_decimal(block) + " hidden="@ + signed_decimal(hidden) + " heads="@
                + signed_decimal(heads) + " blocks="@ + signed_decimal(blocks) + "), "@ + tokenizer
                + " tokenizer, trained "@ + decimal(epochs as nat) + " epochs on "@ + dataset
                + ", seed "@;
            &&& note(None, false, Seq::empty()) == plain + "random"@
            &&& note(Some(seed), false, Seq::empty()) == plain + decimal(seed as nat)
            &&& note(Some(seed), true, Seq::empty()) == note(Some(seed), false, Seq::empty())
                + ", early-stopped at epoch "@ + decimal(epochs as nat)
            &&& uniform ==> note(Some(seed), true, schedule) == note(Some(seed), true, Seq::empty())
            &&& !uniform ==> note(Some(seed), true, schedule) == note(
                Some(seed),
                true,
                Seq::empty(),
            ) + ", heads-schedule=["@ + csv(schedule) + "] (reload with --num-heads \""@ + csv(
                schedule,
            ) + "\")"@
        }),
{
    reveal_strlit("");
    let plain = model_type + " "@ + thousands_text(params) + " params (block="@ + signed_decimal(
        block,
    ) + " hidden="@ + signed_decimal(hidden) + " heads="@ + signed_decimal(heads) + " blocks="@
        + signed_decimal(blocks) + "), "@ + tokenizer + " tokenizer, trained "@ + decimal(
        epochs as nat,
    ) + " epochs on "@ + dataset + ", seed "@;
    let none = Seq::<char>::empty();
    assert(""@ =~= none);
    assert(schedule_is_uniform(Seq::empty()));
    let random = plain + "random"@;
    let seeded = plain + decimal(seed as nat);
    let stop = ", early-stopped at epoch "@ + decimal(epochs as nat);
    let again = ", heads-schedule=["@ + csv(schedule) + "] (reload with --num-heads \""@ + csv(
        schedule,
    ) + "\")"@;
    assert(random + none + none =~= random);
    assert(seeded + none + none =~= seeded);
    assert(seeded + stop + none =~= seeded + ", early-stopped at epoch "@ + decimal(
        epochs as nat,
    ));
    assert(seeded + stop + again =~= seeded + ", early-stopped at epoch "@ + decimal(epochs as nat)
        + ", heads-schedule=["@ + csv(schedule) + "] (reload with --num-heads \""@ + csv(schedule)
        + "\")"@);
}

/// The view of a model is its entries, one by one.
pub proof fn law_view_of_a_model(m: ModelRecord)
    ensures
        m@.id == m.id@ && m@.path == m.path@ && m@.model_type == m.model_type@,
        m@.tokenizer == m.tokenizer@ && m@.vocab_size == m.vocab_size,
        m@.block_size == m.block_size && m@.hidden_size == m.hidden_size,
        m@.num_heads == m.num_heads && m@.num_blocks == m.num_blocks,
        m@.heads_schedule == m.heads_schedule@ && m@.aligned_windows == m.aligned_windows,
        m@.dataset == m.dataset@ && m@.dataset_name == m.dataset_name@,
        m@.eval_min == m.eval_min && m@.eval_max == m.eval_max,
        m@.eval_samples == m.eval_samples && m@.note == m.note@,
        m@.params_estimate == m.params_estimate,
        m.base_model_id matches Some(b) ==> m@.base_model_id == Some(b@),
        m.base_model_id is None ==> m@.base_model_id is None,
        m@.created_at == m.created_at && m@.updated_at == m.updated_at,
{
}

/// The types of models and tokenizers go by short names.
pub proof fn law_names_of_types()
    ensures
        model_type_name(ModelType::Gpt) == "gpt"@,
        model_type_name(ModelType::Bigram) == "bigram"@,
        model_type_name(ModelType::Ngram) == "ngram"@,
        tokenizer_name(TokenizerType::Char) == "char"@,
        tokenizer_name(TokenizerType::Bpe) == "bpe"@,
{
}

} // verus!
