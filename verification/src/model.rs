//! The architectures: their parameters, their variables and what of the input
//! they look at.
use crate::args::ModelType;
use crate::error::fails_with;
use crate::error::ErrorView;
use crate::error::SmolError;
use crate::error::SmolResult;
use crate::list::copy_list;
use crate::number::decimal;
use crate::number::push_decimal;
use crate::schedule::csv;
use crate::schedule::divisor_message;
use crate::schedule::first_bad_block;
use crate::schedule::heads_count_message;
use crate::schedule::heads_schedule_to_csv;
use crate::schedule::is_representative;
use crate::schedule::representative_heads;
use crate::schedule::resolve_heads_schedule;
use crate::schedule::schedule_length_message;
use crate::schedule::schedule_valid;
use crate::schedule::uniform;
use crate::schedule::validate_heads_schedule;
use vstd::prelude::*;
use vstd::string::*;

verus! {

/// `base` to the power `exp`.
pub open spec fn power(base: nat, exp: nat) -> nat
    decreases exp,
{
    if exp == 0 {
        1
    } else {
        base * power(base, (exp - 1) as nat)
    }
}

proof fn lemma_power_positive(base: nat, exp: nat)
    requires
        base > 0,
    ensures
        power(base, exp) > 0,
    decreases exp,
{
    if exp > 0 {
        lemma_power_positive(base, (exp - 1) as nat);
        assert(base * power(base, (exp - 1) as nat) > 0) by (nonlinear_arith)
            requires
                base > 0,
                power(base, (exp - 1) as nat) > 0,
        ;
    }
}

proof fn lemma_power_grows(base: nat, a: nat, b: nat)
    requires
        base > 0,
        a <= b,
    ensures
        power(base, a) <= power(base, b),
    decreases b,
{
    if a < b {
        lemma_power_grows(base, a, (b - 1) as nat);
        lemma_power_positive(base, (b - 1) as nat);
        assert(base * power(base, (b - 1) as nat) >= power(base, (b - 1) as nat))
            by (nonlinear_arith)
            requires
                base > 0,
        ;
    }
}

proof fn lemma_power_small_base(base: nat, exp: nat)
    requires
        base <= 1,
    ensures
        power(base, exp) == if exp == 0 || base == 1 {
            1nat
        } else {
            0
        },
    decreases exp,
{
    if exp > 0 {
        lemma_power_small_base(base, (exp - 1) as nat);
        assert(base * power(base, (exp - 1) as nat) == if base == 1 {
            power(base, (exp - 1) as nat)
        } else {
            0
        }) by (nonlinear_arith)
            requires
                base == 0 || base == 1,
        ;
    }
}

/// `base` to the power `exp`, or `None` where it is too large.
pub fn checked_power(base: usize, exp: usize) -> (r: Option<usize>)
    ensures
        match r {
            Some(n) => n == power(base as nat, exp as nat),
            None => power(base as nat, exp as nat) > usize::MAX,
        },
{
    if base <= 1 {
        proof {
            lemma_power_small_base(base as nat, exp as nat);
        }
        return Some(
            if exp == 0 {
                1
            } else {
                base
            },
        );
    }
    let mut n: usize = 1;
    let mut i: usize = 0;
    while i < exp
        invariant
            i <= exp,
            base > 1,
            n == power(base as nat, i as nat),
        decreases exp - i,
    {
        proof {
            assert(base * n == n * base) by (nonlinear_arith);
            lemma_power_grows(base as nat, (i + 1) as nat, exp as nat);
        }
        match n.checked_mul(base) {
            Some(m) => {
                n = m;
            },
            None => {
                return None;
            },
        }
        i += 1;
    }
    Some(n)
}

/// How the weights of a new layer are drawn.
#[derive(Debug, Clone, Copy, PartialEq, Eq, Structural)]
pub enum WeightInit {
    /// By the tensor library's own rule.
    Library,
    /// With the standard deviation that was asked for.
    Deviation,
    /// By the tensor library's rule with the gain that was asked for.
    Gain,
}

/// How the weights of a new layer are drawn. A standard deviation of its own
/// takes precedence over a gain.
pub fn weight_init(own_deviation: bool, own_gain: bool) -> (r: WeightInit)
    ensures
        r == if own_deviation {
            WeightInit::Deviation
        } else if own_gain {
            WeightInit::Gain
        } else {
            WeightInit::Library
        },
{
    if own_deviation {
        WeightInit::Deviation
    } else if own_gain {
        WeightInit::Gain
    } else {
        WeightInit::Library
    }
}

/// A model that conditions on the last token alone.
pub struct BigramLM {
    pub vocab_size: usize,
}

/// A model that conditions on the last `n - 1` tokens. It is one table with a
/// row for each sequence of `n - 1` tokens.
pub struct NgramLM {
    pub vocab_size: usize,
    pub n: usize,
}

/// The token at `pos`, or 0 before the start of the row.
pub open spec fn token_at(row: Seq<u32>, pos: int) -> nat {
    if 0 <= pos < row.len() {
        row[pos] as nat
    } else {
        0
    }
}

/// The number that the `count` tokens up to `pos` denote in base `vocab`, the
/// oldest first.
pub open spec fn ngram_key(row: Seq<u32>, pos: int, count: nat, vocab: nat) -> nat
    decreases count,
{
    if count == 0 {
        0
    } else {
        ngram_key(row, pos - 1, (count - 1) as nat, vocab) * vocab + token_at(row, pos)
    }
}

impl NgramLM {
    /// There is at least one token of context, and the number of rows is a
    /// `usize`.
    pub open spec fn well_formed(&self) -> bool {
        &&& self.n >= 2
        &&& power(self.vocab_size as nat, (self.n - 1) as nat) <= usize::MAX
    }

    /// A model of order `n` over `vocab_size` tokens.
    pub fn new(vocab_size: usize, n: usize) -> (r: NgramLM)
        requires
            n >= 2,
            power(vocab_size as nat, (n - 1) as nat) <= usize::MAX,
        ensures
            r.well_formed(),
            r.vocab_size == vocab_size,
            r.n == n,
    {
        NgramLM { vocab_size, n }
    }

    /// The number of tokens on which a prediction depends.
    pub fn context_len(&self) -> (r: usize)
        requires
            self.n >= 1,
        ensures
            r == self.n - 1,
    {
        self.n - 1
    }

    /// The number of rows of the table.
    pub fn num_keys(&self) -> (r: usize)
        requires
            self.well_formed(),
        ensures
            r == power(self.vocab_size as nat, (self.n - 1) as nat),
    {
        match checked_power(self.vocab_size, self.n - 1) {
            Some(k) => k,
            None => 0,
        }
    }

    /// The row of the table that each position of `row` looks up. Positions
    /// before the start count as token 0. A key that does not fit into 32 bits
    /// is cut off.
    pub fn compute_keys(&self, row: &Vec<u32>) -> (keys: Vec<u32>)
        requires
            self.n >= 1,
            forall|i: int|
                0 <= i < row@.len() ==> #[trigger] ngram_key(
                    row@,
                    i,
                    (self.n - 1) as nat,
                    self.vocab_size as nat,
                ) <= u64::MAX,
        ensures
            keys@.len() == row@.len(),
            forall|i: int|
                0 <= i < row@.len() ==> #[trigger] keys@[i] == (ngram_key(
                    row@,
                    i,
                    (self.n - 1) as nat,
                    self.vocab_size as nat,
                ) as u64) as u32,
    {
        let count: usize = self.n - 1;
        let vocab: u64 = self.vocab_size as u64;
        let ghost c = (self.n - 1) as nat;
        let ghost v = self.vocab_size as nat;
        let mut keys: Vec<u32> = Vec::new();
        let mut i: usize = 0;
        while i < row.len()
            invariant
                i <= row.len(),
                count == self.n - 1,
                vocab == self.vocab_size,
                c == (self.n - 1) as nat,
                v == self.vocab_size as nat,
                forall|k: int|
                    0 <= k < row@.len() ==> #[trigger] ngram_key(
                        row@,
                        k,
                        c,
                        v,
                    ) <= u64::MAX,
                keys@.len() == i,
                forall|k: int|
                    0 <= k < i ==> #[trigger] keys@[k] == (ngram_key(
                        row@,
                        k,
                        c,
                        v,
                    ) as u64) as u32,
            decreases row.len() - i,
        {
            let mut key: u64 = 0;
            let mut j: usize = 0;
            assert(ngram_key(row@, i as int, c, v) <= u64::MAX);
            while j < count
                invariant
                    j <= count,
                    i < row.len(),
                    key == ngram_key(row@, i - (count - j), j as nat, vocab as nat),
                    ngram_key(row@, i as int, count as nat, vocab as nat) <= u64::MAX,
                decreases count - j,
            {
                let back: usize = count - 1 - j;
                let tok: u64 = if back <= i {
                    row[i - back] as u64
                } else {
                    0
                };
                proof {
                    lemma_key_prefix(row@, i as int, count as nat, (j + 1) as nat, vocab as nat);
                    assert(key * vocab >= 0) by (nonlinear_arith);
                }
                key = key * vocab + tok;
                j += 1;
            }
            #[verifier::truncate]
            let short: u32 = key as u32;
            keys.push(short);
            i += 1;
        }
        keys
    }
}

/// The key of the oldest tokens is at most the key of all of them.
proof fn lemma_key_prefix(row: Seq<u32>, pos: int, count: nat, first: nat, vocab: nat)
    requires
        first <= count,
    ensures
        vocab > 0 ==> ngram_key(row, pos - (count - first), first, vocab) <= ngram_key(
            row,
            pos,
            count,
            vocab,
        ),
        vocab == 0 ==> ngram_key(row, pos - (count - first), first, vocab) <= u32::MAX,
    decreases count,
{
    if first < count {
        lemma_key_prefix(row, pos - 1, (count - 1) as nat, first, vocab);
        let k = ngram_key(row, pos - 1, (count - 1) as nat, vocab);
        assert(vocab > 0 ==> k * vocab >= k) by (nonlinear_arith);
    } else if vocab == 0 && count > 0 {
        let k = ngram_key(row, pos - 1, (count - 1) as nat, vocab);
        assert(k * vocab == 0) by (nonlinear_arith)
            requires
                vocab == 0,
        ;
    }
}

/// Where every token is below the vocabulary size, every key is a row of the
/// table.
pub proof fn law_keys_are_rows(row: Seq<u32>, pos: int, count: nat, vocab: nat)
    requires
        vocab > 0,
        forall|i: int| 0 <= i < row.len() ==> #[trigger] row[i] < vocab,
    ensures
        ngram_key(row, pos, count, vocab) < power(vocab, count),
    decreases count,
{
    if count > 0 {
        law_keys_are_rows(row, pos - 1, (count - 1) as nat, vocab);
        let k = ngram_key(row, pos - 1, (count - 1) as nat, vocab);
        let p = power(vocab, (count - 1) as nat);
        assert(token_at(row, pos) < vocab);
        assert(k * vocab + token_at(row, pos) < vocab * p) by (nonlinear_arith)
            requires
                k + 1 <= p,
                token_at(row, pos) < vocab,
        ;
    }
}

/// The key of a context ends in its current token: that is what is left of the
/// key when it is divided by the vocabulary size, and the quotient is the key of
/// one token less at the position before. Positions before the start count as
/// token 0, and no tokens have the key 0.
pub proof fn law_key_ends_in_the_current_token(row: Seq<u32>, pos: int, count: nat, vocab: nat)
    requires
        count > 0,
        forall|i: int| 0 <= i < row.len() ==> #[trigger] row[i] < vocab,
        vocab > 0,
        pos < row.len(),
    ensures
        0 <= pos ==> ngram_key(row, pos, count, vocab) % vocab == row[pos],
        pos < 0 ==> ngram_key(row, pos, count, vocab) == 0,
        ngram_key(row, pos, count, vocab) / vocab == ngram_key(
            row,
            pos - 1,
            (count - 1) as nat,
            vocab,
        ),
        ngram_key(row, pos, 0, vocab) == 0,
    decreases count,
{
    let k = ngram_key(row, pos - 1, (count - 1) as nat, vocab);
    let t = token_at(row, pos);
    assert(t < vocab);
    assert((k * vocab + t) % vocab == t && (k * vocab + t) / vocab == k) by {
        vstd::arithmetic::div_mod::lemma_fundamental_div_mod_converse(
            (k * vocab + t) as int,
            vocab as int,
            k as int,
            t as int,
        );
    }
    if pos < 0 {
        if count > 1 {
            law_key_ends_in_the_current_token(row, pos - 1, (count - 1) as nat, vocab);
        }
        assert(k == 0);
        assert(k * vocab == 0) by (nonlinear_arith)
            requires
                k == 0,
        ;
    }
}

/// One more token moves a key up by the size of the vocabulary and is added to it;
/// a place before the row adds nothing.
pub proof fn law_key_moves_up_by_the_vocabulary(row: Seq<u32>, pos: int, count: nat, vocab: nat)
    requires
        pos < row.len(),
    ensures
        0 <= pos ==> ngram_key(row, pos, count + 1, vocab) == ngram_key(row, pos - 1, count, vocab)
            * vocab + row[pos],
        pos < 0 ==> ngram_key(row, pos, count + 1, vocab) == ngram_key(row, pos - 1, count, vocab)
            * vocab,
{
}

/// Contexts have the same key exactly where they are the same tokens, those
/// before the start counting as token 0.
pub proof fn law_keys_tell_contexts_apart(
    a: Seq<u32>,
    i: int,
    b: Seq<u32>,
    j: int,
    count: nat,
    vocab: nat,
)
    requires
        vocab > 0,
        forall|x: int| 0 <= x < a.len() ==> #[trigger] a[x] < vocab,
        forall|x: int| 0 <= x < b.len() ==> #[trigger] b[x] < vocab,
        i < a.len(),
        j < b.len(),
    ensures
        ngram_key(a, i, count, vocab) == ngram_key(b, j, count, vocab) <==> forall|back: int|
            #![trigger token_at(a, i - back), token_at(b, j - back)]
            0 <= back < count ==> token_at(a, i - back) == token_at(b, j - back),
        forall|x: int| 0 <= x < a.len() ==> #[trigger] token_at(a, x) == a[x],
        forall|x: int| x < 0 ==> #[trigger] token_at(a, x) == 0,
    decreases count,
{
    if count > 0 {
        let m = (count - 1) as nat;
        law_keys_tell_contexts_apart(a, i - 1, b, j - 1, m, vocab);
        law_key_ends_in_the_current_token(a, i, count, vocab);
        law_key_ends_in_the_current_token(b, j, count, vocab);
        let same = forall|back: int|
            #![trigger token_at(a, i - back), token_at(b, j - back)]
            0 <= back < count ==> token_at(a, i - back) == token_at(b, j - back);
        if ngram_key(a, i, count, vocab) == ngram_key(b, j, count, vocab) {
            assert forall|back: int|
                #![trigger token_at(a, i - back), token_at(b, j - back)]
                0 <= back < count implies token_at(a, i - back) == token_at(b, j - back) by {
                if back == 0 {
                    if i < 0 {
                        assert(ngram_key(b, j, count, vocab) == 0);
                        assert(0nat % vocab == 0) by {
                            vstd::arithmetic::div_mod::lemma_small_mod(0, vocab);
                        }
                    }
                    if j < 0 {
                        assert(0nat % vocab == 0) by {
                            vstd::arithmetic::div_mod::lemma_small_mod(0, vocab);
                        }
                    }
                } else {
                    let before = back - 1;
                    assert(token_at(a, (i - 1) - before) == token_at(b, (j - 1) - before));
                }
            }
        }
        if same {
            assert(token_at(a, i - 0) == token_at(b, j - 0));
            assert forall|back: int|
                #![trigger token_at(a, (i - 1) - back), token_at(b, (j - 1) - back)]
                0 <= back < m implies token_at(a, (i - 1) - back) == token_at(
                b,
                (j - 1) - back,
            ) by {
                let more = back + 1;
                assert(token_at(a, i - more) == token_at(b, j - more));
            }
        }
    }
}

/// A power grows by its base with each step, and begins at one.
pub proof fn law_power_multiplies(base: nat, a: nat, b: nat)
    ensures
        power(base, 0) == 1,
        power(base, 1) == base,
        power(base, a + b) == power(base, a) * power(base, b),
    decreases b,
{
    reveal_with_fuel(power, 2);
    assert(base * power(base, 0) == base) by (nonlinear_arith)
        requires
            power(base, 0) == 1,
    ;
    if b > 0 {
        law_power_multiplies(base, a, (b - 1) as nat);
        let p = power(base, a);
        let q = power(base, (b - 1) as nat);
        assert(base * (p * q) == p * (base * q)) by (nonlinear_arith);
    } else {
        assert(power(base, a) * 1 == power(base, a));
    }
}

/// A model of order 2 looks at the current token alone, as a bigram model does.
pub proof fn law_order_two_is_bigram(row: Seq<u32>, pos: int, vocab: nat)
    requires
        0 <= pos < row.len(),
    ensures
        ngram_key(row, pos, 1, vocab) == row[pos],
{
    reveal_with_fuel(ngram_key, 2);
    assert(ngram_key(row, pos - 1, 0, vocab) * vocab == 0) by (nonlinear_arith)
        requires
            ngram_key(row, pos - 1, 0, vocab) == 0,
    ;
}

/// A transformer.
pub struct Gpt {
    pub block_size: usize,
    pub vocab_size: usize,
    pub embed_dims: usize,
    /// The head count of each block.
    pub heads_schedule: Vec<usize>,
    pub num_blocks: usize,
    /// Whether the output layer shares its weight with the token embeddings.
    pub tie_embeddings: bool,
}

/// The message for an input that is longer than the position table.
pub open spec fn sequence_message(len: int, block: int) -> Seq<char> {
    "Gpt::forward_with_training: input seq_len "@ + decimal(len as nat) + " exceeds block_size "@
        + decimal(block as nat) + " (the position-embedding table only has "@ + decimal(
        block as nat,
    ) + " rows); truncate the input first"@
}

/// The message for a model file that does not match the architecture.
pub open spec fn mismatch_message(
    path: Seq<char>,
    block: int,
    hidden: int,
    schedule: Seq<usize>,
    blocks: int,
    underlying: Seq<char>,
) -> Seq<char> {
    "Model file "@ + path + " does not match the requested architecture (block_size="@ + decimal(
        block as nat,
    ) + ", hidden_size="@ + decimal(hidden as nat) + ", num_heads="@ + csv(schedule)
        + ", num_blocks="@ + decimal(blocks as nat)
        + "). Re-run with --block-size/--hidden-size/--num-heads/--num-blocks matching the saved model. Underlying error: "@
        + underlying
}

impl Gpt {
    /// The schedule has one entry per block, and each divides the embedding.
    pub open spec fn well_formed(&self) -> bool {
        schedule_valid(self.embed_dims, self.heads_schedule@, self.num_blocks as int)
    }

    /// A transformer with the head counts `heads_schedule`, which must fit.
    pub fn new(
        block_size: usize,
        vocab_size: usize,
        embed_dims: usize,
        heads_schedule: &Vec<usize>,
        num_blocks: usize,
        tie_embeddings: bool,
    ) -> (r: SmolResult<Gpt>)
        ensures
            r is Ok <==> schedule_valid(embed_dims, heads_schedule@, num_blocks as int),
            r matches Ok(g) ==> {
                &&& g.well_formed()
                &&& g.block_size == block_size
                &&& g.vocab_size == vocab_size
                &&& g.embed_dims == embed_dims
                &&& g.heads_schedule@ == heads_schedule@
                &&& g.num_blocks == num_blocks
                &&& g.tie_embeddings == tie_embeddings
            },
            heads_schedule@.len() != num_blocks ==> fails_with(
                r,
                ErrorView::InvalidArgument(
                    schedule_length_message(
                        heads_schedule@.len() as int,
                        num_blocks as int,
                    ),
                ),
            ),
            heads_schedule@.len() == num_blocks ==> forall|i: int|
                #[trigger] first_bad_block(embed_dims, heads_schedule@, i)
                    ==> fails_with(
                    r,
                    ErrorView::InvalidArgument(
                        divisor_message(
                            embed_dims as int,
                            heads_schedule@[i] as int,
                            i,
                        ),
                    ),
                ),
    {
        match validate_heads_schedule(embed_dims, heads_schedule, num_blocks) {
            Err(e) => Err(e),
            Ok(()) => Ok(
                Gpt {
                    block_size,
                    vocab_size,
                    embed_dims,
                    heads_schedule: copy_list(heads_schedule),
                    num_blocks,
                    tie_embeddings,
                },
            ),
        }
    }

    /// Checks the length of an input against the position table.
    pub fn check_sequence(&self, len: usize) -> (r: SmolResult<()>)
        ensures
            len <= self.block_size ==> r is Ok,
            len > self.block_size ==> fails_with(
                r,
                ErrorView::Candle(sequence_message(len as int, self.block_size as int)),
            ),
    {
        if len <= self.block_size {
            return Ok(());
        }
        let mut m: String = "Gpt::forward_with_training: input seq_len ".to_owned();
        push_decimal(&mut m, len as u64);
        m.append(" exceeds block_size ");
        push_decimal(&mut m, self.block_size as u64);
        m.append(" (the position-embedding table only has ");
        push_decimal(&mut m, self.block_size as u64);
        m.append(" rows); truncate the input first");
        Err(SmolError::CandleError(m))
    }

    /// The error for a model file at `path` that could not be loaded as this
    /// architecture.
    pub fn mismatch_error(&self, path: &str, underlying: &str) -> (e: SmolError)
        ensures
            e@ == ErrorView::InvalidArgument(
                mismatch_message(
                    path@,
                    self.block_size as int,
                    self.embed_dims as int,
                    self.heads_schedule@,
                    self.num_blocks as int,
                    underlying@,
                ),
            ),
    {
        let mut m: String = "Model file ".to_owned();
        m.append(path);
        m.append(" does not match the requested architecture (block_size=");
        push_decimal(&mut m, self.block_size as u64);
        m.append(", hidden_size=");
        push_decimal(&mut m, self.embed_dims as u64);
        m.append(", num_heads=");
        let heads: String = heads_schedule_to_csv(&self.heads_schedule);
        m.append(heads.as_str());
        m.append(", num_blocks=");
        push_decimal(&mut m, self.num_blocks as u64);
        m.append("). Re-run with --block-size/--hidden-size/--num-heads/--num-blocks matching the saved model. Underlying error: ");
        m.append(underlying);
        SmolError::InvalidArgument(m)
    }
}

/// A model of any architecture.
pub enum LanguageModel {
    BigramLM(BigramLM),
    Gpt(Gpt),
    Ngram(NgramLM),
}

/// Whether two models have the same architecture.
pub open spec fn same_architecture(a: LanguageModel, b: LanguageModel) -> bool {
    match (a, b) {
        (LanguageModel::BigramLM(x), LanguageModel::BigramLM(y)) => x == y,
        (LanguageModel::Ngram(x), LanguageModel::Ngram(y)) => x == y,
        (LanguageModel::Gpt(x), LanguageModel::Gpt(y)) => {
            &&& x.block_size == y.block_size
            &&& x.vocab_size == y.vocab_size
            &&& x.embed_dims == y.embed_dims
            &&& x.heads_schedule@ == y.heads_schedule@
            &&& x.num_blocks == y.num_blocks
            &&& x.tie_embeddings == y.tie_embeddings
        },
        _ => false,
    }
}

/// The schedule that a list of head counts stands for.
pub open spec fn resolved_heads(num_heads: Seq<usize>, num_blocks: int) -> Option<Seq<usize>> {
    if num_heads.len() == 1 {
        Some(uniform(num_heads[0], num_blocks as nat))
    } else if num_heads.len() == num_blocks {
        Some(num_heads)
    } else {
        None
    }
}

impl LanguageModel {
    pub open spec fn well_formed(&self) -> bool {
        match self {
            LanguageModel::BigramLM(_) => true,
            LanguageModel::Gpt(g) => g.well_formed(),
            LanguageModel::Ngram(g) => g.well_formed(),
        }
    }

    /// A bigram model.
    pub fn new_bigram(vocab_size: usize) -> (r: Self)
        ensures
            r matches LanguageModel::BigramLM(b) && b.vocab_size == vocab_size,
    {
        LanguageModel::BigramLM(BigramLM { vocab_size })
    }

    /// A model that conditions on `context_len` tokens.
    pub fn new_ngram(vocab_size: usize, context_len: usize) -> (r: Self)
        requires
            1 <= context_len,
            context_len < usize::MAX,
            power(vocab_size as nat, context_len as nat) <= usize::MAX,
        ensures
            r.well_formed(),
            r matches LanguageModel::Ngram(g) && g.vocab_size == vocab_size && g.n == context_len
                + 1,
    {
        LanguageModel::Ngram(NgramLM::new(vocab_size, context_len + 1))
    }

    /// A transformer. `num_heads` is one number for every block or one per
    /// block.
    pub fn new_gpt(
        block_size: usize,
        vocab_size: usize,
        embed_dims: usize,
        num_heads: &Vec<usize>,
        num_blocks: usize,
        tie_embeddings: bool,
    ) -> (r: SmolResult<Self>)
        ensures
            match resolved_heads(num_heads@, num_blocks as int) {
                None => fails_with(
                    r,
                    ErrorView::InvalidArgument(
                        heads_count_message(num_heads@.len() as int, num_blocks as int),
                    ),
                ),
                Some(s) => {
                    &&& r is Ok <==> schedule_valid(embed_dims, s, num_blocks as int)
                    &&& r matches Ok(m) ==> m.well_formed() && (m matches LanguageModel::Gpt(g)
                        && g.block_size == block_size && g.vocab_size == vocab_size
                        && g.embed_dims == embed_dims && g.heads_schedule@ == s && g.num_blocks
                        == num_blocks && g.tie_embeddings == tie_embeddings)
                    &&& forall|i: int|
                        #[trigger] first_bad_block(embed_dims, s, i)
                            ==> fails_with(
                            r,
                            ErrorView::InvalidArgument(
                                divisor_message(
                                    embed_dims as int,
                                    s[i] as int,
                                    i,
                                ),
                            ),
                        )
                },
            },
    {
        match resolve_heads_schedule(num_heads, num_blocks) {
            Err(e) => Err(e),
            Ok(schedule) => match Gpt::new(
                block_size,
                vocab_size,
                embed_dims,
                &schedule,
                num_blocks,
                tie_embeddings,
            ) {
                Err(e) => Err(e),
                Ok(g) => Ok(LanguageModel::Gpt(g)),
            },
        }
    }

    /// Whether `new` has an answer for these parameters: the table of an n-gram
    /// model must not be too large, and it needs some context.
    pub open spec fn buildable(model_type: ModelType, block_size: usize, vocab_size: usize) -> bool {
        model_type is Ngram ==> 1 <= block_size < usize::MAX && power(
            vocab_size as nat,
            block_size as nat,
        ) <= usize::MAX
    }

    /// Whether a model of the given type and size can be built.
    pub fn can_build(model_type: ModelType, block_size: usize, vocab_size: usize) -> (r: bool)
        ensures
            r == Self::buildable(model_type, block_size, vocab_size),
    {
        if !matches!(model_type, ModelType::Ngram) {
            return true;
        }
        if block_size < 1 || block_size == usize::MAX {
            return false;
        }
        checked_power(vocab_size, block_size).is_some()
    }

    /// A model of the given type. Only a transformer takes note of the hidden
    /// size, the heads, the blocks and the tying; for an n-gram model the block
    /// size is its context length.
    pub fn new(
        model_type: ModelType,
        block_size: usize,
        vocab_size: usize,
        hidden_size: usize,
        num_heads: &Vec<usize>,
        num_blocks: usize,
        tie_embeddings: bool,
    ) -> (r: SmolResult<Self>)
        requires
            Self::buildable(model_type, block_size, vocab_size),
        ensures
            r matches Ok(m) ==> m.well_formed(),
            model_type is Bigram ==> (r matches Ok(LanguageModel::BigramLM(b)) && b.vocab_size
                == vocab_size),
            model_type is Ngram ==> (r matches Ok(LanguageModel::Ngram(g)) && g.vocab_size
                == vocab_size && g.n == block_size + 1),
            model_type is Gpt ==> match resolved_heads(num_heads@, num_blocks as int) {
                None => fails_with(
                    r,
                    ErrorView::InvalidArgument(
                        heads_count_message(num_heads@.len() as int, num_blocks as int),
                    ),
                ),
                Some(s) => {
                    &&& r is Ok <==> schedule_valid(hidden_size, s, num_blocks as int)
                    &&& r matches Ok(m) ==> (m matches LanguageModel::Gpt(g) && g.block_size
                        == block_size && g.vocab_size == vocab_size && g.embed_dims == hidden_size
                        && g.heads_schedule@ == s && g.num_blocks == num_blocks
                        && g.tie_embeddings == tie_embeddings)
                    &&& forall|i: int|
                        #[trigger] first_bad_block(hidden_size, s, i)
                            ==> fails_with(
                            r,
                            ErrorView::InvalidArgument(
                                divisor_message(
                                    hidden_size as int,
                                    s[i] as int,
                                    i,
                                ),
                            ),
                        )
                },
            },
    {
        match model_type {
            ModelType::Gpt => Self::new_gpt(
                block_size,
                vocab_size,
                hidden_size,
                num_heads,
                num_blocks,
                tie_embeddings,
            ),
            ModelType::Bigram => Ok(Self::new_bigram(vocab_size)),
            ModelType::Ngram => Ok(Self::new_ngram(vocab_size, block_size)),
        }
    }

    /// A model with the same architecture, built from what the getters say.
    /// It is what a copy of the model is loaded into.
    pub fn snapshot(&self) -> (r: SmolResult<LanguageModel>)
        requires
            self.well_formed(),
        ensures
            r matches Ok(m) && m.well_formed() && same_architecture(m, *self),
    {
        let heads: Vec<usize> = self.get_heads_schedule();
        let r: SmolResult<LanguageModel> = Self::new(
            self.get_model_type(),
            self.get_block_size(),
            self.get_vocab_size(),
            self.get_hidden_size(),
            &heads,
            self.get_num_blocks(),
            self.get_tie_embeddings(),
        );
        proof {
            if let LanguageModel::Gpt(g) = self {
                if g.heads_schedule@.len() == 1 {
                    assert(uniform(g.heads_schedule@[0], 1) =~= g.heads_schedule@);
                }
            }
        }
        r
    }

    /// How many tokens of context the model takes. A bigram model has no such
    /// limit; its vocabulary size stands in.
    pub open spec fn block_size(&self) -> int {
        match self {
            LanguageModel::BigramLM(m) => m.vocab_size as int,
            LanguageModel::Gpt(m) => m.block_size as int,
            LanguageModel::Ngram(m) => m.n - 1,
        }
    }

    /// How many tokens of context the model takes.
    pub fn get_block_size(&self) -> (r: usize)
        requires
            self.well_formed(),
        ensures
            r == self.block_size(),
    {
        match self {
            LanguageModel::BigramLM(m) => m.vocab_size,
            LanguageModel::Gpt(m) => m.block_size,
            LanguageModel::Ngram(m) => m.context_len(),
        }
    }

    /// The number of tokens that the model knows.
    pub open spec fn vocab_size(&self) -> usize {
        match self {
            LanguageModel::BigramLM(m) => m.vocab_size,
            LanguageModel::Gpt(m) => m.vocab_size,
            LanguageModel::Ngram(m) => m.vocab_size,
        }
    }

    /// The number of tokens that the model knows.
    pub fn get_vocab_size(&self) -> (r: usize)
        ensures
            r == self.vocab_size(),
    {
        match self {
            LanguageModel::BigramLM(m) => m.vocab_size,
            LanguageModel::Gpt(m) => m.vocab_size,
            LanguageModel::Ngram(m) => m.vocab_size,
        }
    }

    /// The embedding size of a transformer; zero for the others.
    pub fn get_hidden_size(&self) -> (r: usize)
        ensures
            r == match self {
                LanguageModel::Gpt(m) => m.embed_dims,
                _ => 0,
            },
    {
        match self {
            LanguageModel::Gpt(m) => m.embed_dims,
            _ => 0,
        }
    }

    /// The smallest head count of a transformer; zero for the others.
    pub fn get_num_heads(&self) -> (r: usize)
        ensures
            match self {
                LanguageModel::Gpt(m) => is_representative(m.heads_schedule@, r),
                _ => r == 0,
            },
    {
        match self {
            LanguageModel::Gpt(m) => representative_heads(&m.heads_schedule),
            _ => 0,
        }
    }

    /// The head count of each block; empty where there are no blocks.
    pub fn get_heads_schedule(&self) -> (r: Vec<usize>)
        ensures
            r@ == match self {
                LanguageModel::Gpt(m) => m.heads_schedule@,
                _ => Seq::empty(),
            },
    {
        match self {
            LanguageModel::Gpt(m) => copy_list(&m.heads_schedule),
            _ => Vec::new(),
        }
    }

    /// Whether the output layer shares its weight with the token embeddings.
    pub fn get_tie_embeddings(&self) -> (r: bool)
        ensures
            r == match self {
                LanguageModel::Gpt(m) => m.tie_embeddings,
                _ => false,
            },
    {
        match self {
            LanguageModel::Gpt(m) => m.tie_embeddings,
            _ => false,
        }
    }

    /// The number of blocks of a transformer; zero for the others.
    pub fn get_num_blocks(&self) -> (r: usize)
        ensures
            r == match self {
                LanguageModel::Gpt(m) => m.num_blocks,
                _ => 0,
            },
    {
        match self {
            LanguageModel::Gpt(m) => m.num_blocks,
            _ => 0,
        }
    }

    /// The type of the model.
    pub fn get_model_type(&self) -> (r: ModelType)
        ensures
            r == match self {
                LanguageModel::BigramLM(_) => ModelType::Bigram,
                LanguageModel::Gpt(_) => ModelType::Gpt,
                LanguageModel::Ngram(_) => ModelType::Ngram,
            },
    {
        match self {
            LanguageModel::BigramLM(_) => ModelType::Bigram,
            LanguageModel::Gpt(_) => ModelType::Gpt,
            LanguageModel::Ngram(_) => ModelType::Ngram,
        }
    }
}

/// One head count stands for every block, a list with an entry for each block
/// for itself, and no other list for anything.
pub proof fn law_head_counts_resolve(heads: Seq<usize>, blocks: int, i: int)
    requires
        blocks >= 0,
    ensures
        heads.len() == 1 ==> (resolved_heads(heads, blocks) matches Some(s) && s.len() == blocks && (
        0 <= i < blocks ==> s[i] == heads[0])),
        heads.len() != 1 && heads.len() == blocks ==> resolved_heads(heads, blocks) == Some(heads),
        heads.len() != 1 && heads.len() != blocks ==> resolved_heads(heads, blocks) is None,
{
}

/// What a model sees and knows: a transformer its block, an n-gram model one
/// token less than its order, and each its vocabulary.
pub proof fn law_context_of_a_model(g: Gpt, n: NgramLM, b: BigramLM)
    ensures
        LanguageModel::Gpt(g).block_size() == g.block_size,
        LanguageModel::Ngram(n).block_size() == n.n - 1,
        LanguageModel::BigramLM(b).block_size() == b.vocab_size,
        LanguageModel::Gpt(g).vocab_size() == g.vocab_size,
        LanguageModel::Ngram(n).vocab_size() == n.vocab_size,
        LanguageModel::BigramLM(b).vocab_size() == b.vocab_size,
{
}

} // verus!
