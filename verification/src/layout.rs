//! The variables of each architecture, by name and shape, and how many
//! parameters they hold.
use crate::model::checked_power;
use crate::model::law_power_multiplies;
use crate::model::power;
use crate::model::same_architecture;
use crate::model::BigramLM;
use crate::model::Gpt;
use crate::model::LanguageModel;
use crate::model::NgramLM;
use crate::number::decimal;
use crate::number::push_decimal;
use crate::schedule::divides;
use crate::schedule::schedule_valid;
use crate::text::same_text;
use vstd::prelude::*;
use vstd::string::*;

verus! {

/// A variable: its name and the length of each of its dimensions.
pub struct VarSpec {
    pub name: String,
    pub dims: Vec<usize>,
}

/// A variable as a mathematical value.
#[verifier::ext_equal]
pub struct VarView {
    pub name: Seq<char>,
    pub dims: Seq<usize>,
}

impl View for VarSpec {
    type V = VarView;

    open spec fn view(&self) -> VarView {
        VarView { name: self.name@, dims: self.dims@ }
    }
}

/// The variables of a list.
pub open spec fn var_views(v: Seq<VarSpec>) -> Seq<VarView> {
    v.map_values(|x: VarSpec| x@)
}

/// The product of the lengths of the dimensions.
pub open spec fn elements(dims: Seq<usize>) -> nat
    decreases dims.len(),
{
    if dims.len() == 0 {
        1
    } else {
        elements(dims.drop_last()) * dims.last() as nat
    }
}

/// The number of parameters of a list of variables.
pub open spec fn total_elements(v: Seq<VarView>) -> nat
    decreases v.len(),
{
    if v.len() == 0 {
        0
    } else {
        total_elements(v.drop_last()) + elements(v.last().dims)
    }
}

proof fn lemma_total_add(a: Seq<VarView>, b: Seq<VarView>)
    ensures
        total_elements(a + b) == total_elements(a) + total_elements(b),
    decreases b.len(),
{
    if b.len() == 0 {
        assert(a + b =~= a);
    } else {
        assert((a + b).drop_last() =~= a + b.drop_last());
        lemma_total_add(a, b.drop_last());
    }
}

/// A matrix of `rows` by `cols`.
pub open spec fn matrix(name: Seq<char>, rows: usize, cols: usize) -> VarView {
    VarView { name, dims: seq![rows, cols] }
}

/// A vector of `len` entries.
pub open spec fn vector(name: Seq<char>, len: usize) -> VarView {
    VarView { name, dims: seq![len] }
}

proof fn lemma_matrix_elements(name: Seq<char>, rows: usize, cols: usize)
    ensures
        elements(matrix(name, rows, cols).dims) == rows as nat * cols as nat,
{
    let d = seq![rows, cols];
    let one = seq![rows];
    assert(d.drop_last() =~= one);
    lemma_vector_elements(name, rows);
    assert(elements(d) == elements(one) * cols as nat);
}

proof fn lemma_vector_elements(name: Seq<char>, len: usize)
    ensures
        elements(vector(name, len).dims) == len as nat,
{
    let d = seq![len];
    let none = d.drop_last();
    assert(none =~= Seq::<usize>::empty());
    assert(elements(none) == 1);
    assert(elements(d) == elements(none) * len as nat);
    assert(elements(none) * len as nat == len as nat) by (nonlinear_arith)
        requires
            elements(none) == 1,
    ;
}

/// The prefix of the variables of block `i`.
pub open spec fn block_prefix(i: nat) -> Seq<char> {
    "blocks.block_"@ + decimal(i) + "."@
}

/// The variables of the first `n` attention heads of a block.
pub open spec fn head_vars(prefix: Seq<char>, n: nat, size: usize, h: usize) -> Seq<VarView>
    decreases n,
{
    if n == 0 {
        seq![]
    } else {
        let head = prefix + "attn.head_"@ + decimal((n - 1) as nat);
        head_vars(prefix, (n - 1) as nat, size, h) + seq![
            matrix(head + ".key.weight"@, size, h),
            matrix(head + ".query.weight"@, size, h),
            matrix(head + ".value.weight"@, size, h),
        ]
    }
}

/// The variables of a block behind its attention heads: the projection of the
/// heads, the two layers of the feed-forward net and the two norms.
pub open spec fn block_tail(prefix: Seq<char>, heads_width: usize, h: usize) -> Seq<VarView> {
    seq![
        matrix(prefix + "attn.proj.weight"@, h, heads_width),
        vector(prefix + "attn.proj.bias"@, h),
        matrix(prefix + "ffwd.fc1.weight"@, (4 * h) as usize, h),
        vector(prefix + "ffwd.fc1.bias"@, (4 * h) as usize),
        matrix(prefix + "ffwd.fc2.weight"@, h, (4 * h) as usize),
        vector(prefix + "ffwd.fc2.bias"@, h),
        vector(prefix + "ln1.weight"@, h),
        vector(prefix + "ln1.bias"@, h),
        vector(prefix + "ln2.weight"@, h),
        vector(prefix + "ln2.bias"@, h),
    ]
}

/// The variables of block `i` with `heads` heads.
pub open spec fn block_vars(i: nat, heads: usize, h: usize) -> Seq<VarView> {
    let size = h / heads;
    head_vars(block_prefix(i), heads as nat, size, h) + block_tail(
        block_prefix(i),
        (heads * size) as usize,
        h,
    )
}

/// The variables of the first `n` blocks.
pub open spec fn blocks_vars(schedule: Seq<usize>, n: nat, h: usize) -> Seq<VarView>
    decreases n,
{
    if n == 0 {
        seq![]
    } else {
        blocks_vars(schedule, (n - 1) as nat, h) + block_vars((n - 1) as nat, schedule[n - 1], h)
    }
}

/// The variables of a transformer.
pub open spec fn gpt_vars(
    vocab: usize,
    block: usize,
    h: usize,
    schedule: Seq<usize>,
    tied: bool,
) -> Seq<VarView> {
    seq![
        matrix("token_embeddings"@, vocab, h),
        matrix("position_embeddings"@, block, h),
    ] + blocks_vars(schedule, schedule.len(), h) + if tied {
        seq![vector("lm_head.bias"@, vocab)]
    } else {
        seq![matrix("lm_head.weight"@, vocab, h), vector("lm_head.bias"@, vocab)]
    }
}

/// Whether a variable belongs to a block.
spec fn in_block(v: VarView) -> bool {
    v.name.len() > 0 && v.name[0] == 'b'
}

proof fn lemma_block_names(prefix: Seq<char>, n: nat, size: usize, width: usize, h: usize)
    requires
        prefix.len() > 0,
        prefix[0] == 'b',
    ensures
        forall|k: int|
            0 <= k < head_vars(prefix, n, size, h).len() ==> in_block(
                #[trigger] head_vars(prefix, n, size, h)[k],
            ),
        forall|k: int|
            0 <= k < block_tail(prefix, width, h).len() ==> in_block(
                #[trigger] block_tail(prefix, width, h)[k],
            ),
    decreases n,
{
    if n > 0 {
        lemma_block_names(prefix, (n - 1) as nat, size, width, h);
        let before = head_vars(prefix, (n - 1) as nat, size, h);
        assert forall|k: int| 0 <= k < head_vars(prefix, n, size, h).len() implies in_block(
            #[trigger] head_vars(prefix, n, size, h)[k],
        ) by {
            if k < before.len() {
                assert(in_block(before[k]));
            }
        }
    }
}

proof fn lemma_blocks_names(schedule: Seq<usize>, n: nat, h: usize)
    requires
        n <= schedule.len(),
    ensures
        forall|k: int|
            0 <= k < blocks_vars(schedule, n, h).len() ==> in_block(
                #[trigger] blocks_vars(schedule, n, h)[k],
            ),
    decreases n,
{
    if n > 0 {
        let i = (n - 1) as nat;
        lemma_blocks_names(schedule, i, h);
        let before = blocks_vars(schedule, i, h);
        let heads = schedule[n - 1];
        let size = h / heads;
        reveal_strlit("blocks.block_");
        let prefix = block_prefix(i);
        lemma_block_names(prefix, heads as nat, size, (heads * size) as usize, h);
        let first = head_vars(prefix, heads as nat, size, h);
        let second = block_tail(prefix, (heads * size) as usize, h);
        let all = blocks_vars(schedule, n, h);
        assert(all =~= before + (first + second));
        assert forall|k: int| 0 <= k < all.len() implies in_block(#[trigger] all[k]) by {
            if k < before.len() {
                assert(in_block(before[k]));
            } else if k < before.len() + first.len() {
                assert(in_block(first[k - before.len()]));
            } else {
                assert(in_block(second[k - before.len() - first.len()]));
            }
        }
    }
}

/// A transformer whose output layer shares the token embeddings holds no
/// weights of its own for that layer, but its bias; otherwise it has the same
/// variables as one with an output layer of its own.
pub proof fn law_tied_model_holds_no_output_weights(
    vocab: usize,
    block: usize,
    h: usize,
    schedule: Seq<usize>,
)
    ensures
        forall|k: int|
            0 <= k < gpt_vars(vocab, block, h, schedule, true).len() ==> (#[trigger] gpt_vars(
                vocab,
                block,
                h,
                schedule,
                true,
            )[k]).name != "lm_head.weight"@,
        gpt_vars(vocab, block, h, schedule, true).contains(vector("lm_head.bias"@, vocab)),
        gpt_vars(vocab, block, h, schedule, false) == gpt_vars(
            vocab,
            block,
            h,
            schedule,
            true,
        ).insert(
            gpt_vars(vocab, block, h, schedule, true).len() - 1,
            matrix("lm_head.weight"@, vocab, h),
        ),
{
    let tied = gpt_vars(vocab, block, h, schedule, true);
    let mid = blocks_vars(schedule, schedule.len(), h);
    lemma_blocks_names(schedule, schedule.len(), h);
    reveal_strlit("token_embeddings");
    reveal_strlit("position_embeddings");
    reveal_strlit("lm_head.weight");
    reveal_strlit("lm_head.bias");
    assert forall|k: int| 0 <= k < tied.len() implies (#[trigger] tied[k]).name
        != "lm_head.weight"@ by {
        if 2 <= k < mid.len() + 2 {
            assert(in_block(mid[k - 2]));
            assert(tied[k].name[0] == 'b');
            assert("lm_head.weight"@[0] == 'l');
        } else if k == 0 {
            assert(tied[k].name[0] == 't');
        } else if k == 1 {
            assert(tied[k].name[0] == 'p');
        } else {
            assert(tied[k].name.len() == 12);
        }
    }
    assert(tied[tied.len() - 1] == vector("lm_head.bias"@, vocab));
    assert(gpt_vars(vocab, block, h, schedule, false) =~= tied.insert(
        tied.len() - 1,
        matrix("lm_head.weight"@, vocab, h),
    ));
}

/// The number of parameters of a transformer with its own output layer.
pub open spec fn gpt_params(vocab: nat, block: nat, h: nat, blocks: nat) -> nat {
    vocab * h + block * h + blocks * (3 * h * h + h * h + h + h * 4 * h + 4 * h + 4 * h * h + h + 4
        * h) + h * vocab + vocab
}

fn make_matrix(name: String, rows: usize, cols: usize) -> (r: VarSpec)
    ensures
        r@ == matrix(name@, rows, cols),
{
    let mut dims: Vec<usize> = Vec::new();
    dims.push(rows);
    dims.push(cols);
    assert(dims@ =~= seq![rows, cols]);
    VarSpec { name, dims }
}

fn make_vector(name: String, len: usize) -> (r: VarSpec)
    ensures
        r@ == vector(name@, len),
{
    let mut dims: Vec<usize> = Vec::new();
    dims.push(len);
    assert(dims@ =~= seq![len]);
    VarSpec { name, dims }
}

fn join(a: &str, b: &str) -> (r: String)
    ensures
        r@ == a@ + b@,
{
    let mut s: String = a.to_owned();
    s.append(b);
    s
}

fn push_var(out: &mut Vec<VarSpec>, v: VarSpec)
    ensures
        var_views(final(out)@) == var_views(old(out)@).push(v@),
{
    out.push(v);
    assert(var_views(out@) =~= var_views(old(out)@).push(v@));
}

fn push_heads(out: &mut Vec<VarSpec>, prefix: &str, heads: usize, size: usize, h: usize)
    ensures
        var_views(final(out)@) == var_views(old(out)@) + head_vars(prefix@, heads as nat, size, h),
{
    let mut j: usize = 0;
    assert(var_views(out@) + head_vars(prefix@, 0, size, h) =~= var_views(out@));
    while j < heads
        invariant
            j <= heads,
            var_views(out@) == var_views(old(out)@) + head_vars(prefix@, j as nat, size, h),
        decreases heads - j,
    {
        let mut head: String = join(prefix, "attn.head_");
        push_decimal(&mut head, j as u64);
        let ghost before_push = var_views(out@);
        push_var(out, make_matrix(join(head.as_str(), ".key.weight"), size, h));
        push_var(out, make_matrix(join(head.as_str(), ".query.weight"), size, h));
        push_var(out, make_matrix(join(head.as_str(), ".value.weight"), size, h));
        j += 1;
        proof {
            assert(var_views(out@) =~= var_views(old(out)@) + head_vars(
                prefix@,
                j as nat,
                size,
                h,
            ));
        }
    }
}

fn push_tail(out: &mut Vec<VarSpec>, prefix: &str, heads_width: usize, h: usize)
    requires
        4 * h <= usize::MAX,
    ensures
        var_views(final(out)@) == var_views(old(out)@) + block_tail(prefix@, heads_width, h),
{
    push_var(out, make_matrix(join(prefix, "attn.proj.weight"), h, heads_width));
    push_var(out, make_vector(join(prefix, "attn.proj.bias"), h));
    push_var(out, make_matrix(join(prefix, "ffwd.fc1.weight"), 4 * h, h));
    push_var(out, make_vector(join(prefix, "ffwd.fc1.bias"), 4 * h));
    push_var(out, make_matrix(join(prefix, "ffwd.fc2.weight"), h, 4 * h));
    push_var(out, make_vector(join(prefix, "ffwd.fc2.bias"), h));
    push_var(out, make_vector(join(prefix, "ln1.weight"), h));
    push_var(out, make_vector(join(prefix, "ln1.bias"), h));
    push_var(out, make_vector(join(prefix, "ln2.weight"), h));
    push_var(out, make_vector(join(prefix, "ln2.bias"), h));
    assert(var_views(out@) =~= var_views(old(out)@) + block_tail(prefix@, heads_width, h));
}

proof fn lemma_width(h: usize, heads: usize)
    requires
        divides(heads, h),
    ensures
        heads * (h / heads) == h,
{
    assert(heads * (h / heads) == h) by (nonlinear_arith)
        requires
            heads > 0,
            h % heads == 0,
    ;
}

impl Gpt {
    /// The variables of the transformer.
    pub open spec fn vars(&self) -> Seq<VarView> {
        gpt_vars(
            self.vocab_size,
            self.block_size,
            self.embed_dims,
            self.heads_schedule@,
            self.tie_embeddings,
        )
    }

    /// The variables of the transformer, by name and shape. A fresh model and
    /// one that is loaded have the same ones. Where the output layer is tied
    /// it has a bias of its own, and no weight.
    pub fn variables(&self) -> (r: Vec<VarSpec>)
        requires
            self.well_formed(),
            4 * self.embed_dims <= usize::MAX,
        ensures
            var_views(r@) == self.vars(),
    {
        let h: usize = self.embed_dims;
        let mut out: Vec<VarSpec> = Vec::new();
        push_var(&mut out, make_matrix("token_embeddings".to_owned(), self.vocab_size, h));
        push_var(&mut out, make_matrix("position_embeddings".to_owned(), self.block_size, h));
        let ghost head = var_views(out@);
        proof {
            assert(head =~= seq![
                matrix("token_embeddings"@, self.vocab_size, h),
                matrix("position_embeddings"@, self.block_size, h),
            ]);
            assert(head + blocks_vars(self.heads_schedule@, 0, h) =~= head);
        }
        let mut i: usize = 0;
        while i < self.heads_schedule.len()
            invariant
                i <= self.heads_schedule.len(),
                h == self.embed_dims,
                4 * h <= usize::MAX,
                schedule_valid(h, self.heads_schedule@, self.num_blocks as int),
                var_views(out@) == head + blocks_vars(self.heads_schedule@, i as nat, h),
            decreases self.heads_schedule.len() - i,
        {
            let heads: usize = self.heads_schedule[i];
            assert(divides(self.heads_schedule@[i as int], h));
            let mut prefix: String = "blocks.block_".to_owned();
            push_decimal(&mut prefix, i as u64);
            prefix.append(".");
            let size: usize = h / heads;
            proof {
                lemma_width(h, heads);
            }
            let ghost before_push = var_views(out@);
            push_heads(&mut out, prefix.as_str(), heads, size, h);
            push_tail(&mut out, prefix.as_str(), heads * size, h);
            proof {
                assert(var_views(out@) =~= before_push + block_vars(i as nat, heads, h));
                assert(var_views(out@) =~= head + blocks_vars(
                    self.heads_schedule@,
                    (i + 1) as nat,
                    h,
                ));
            }
            i += 1;
        }
        if !self.tie_embeddings {
            push_var(&mut out, make_matrix("lm_head.weight".to_owned(), self.vocab_size, h));
        }
        push_var(&mut out, make_vector("lm_head.bias".to_owned(), self.vocab_size));
        assert(var_views(out@) =~= self.vars());
        out
    }
}

/// The variables of a model.
pub open spec fn model_vars(m: LanguageModel) -> Seq<VarView> {
    match m {
        LanguageModel::BigramLM(b) => seq![matrix("embeddings"@, b.vocab_size, b.vocab_size)],
        LanguageModel::Gpt(g) => g.vars(),
        LanguageModel::Ngram(g) => seq![
            matrix(
                "embeddings"@,
                power(g.vocab_size as nat, (g.n - 1) as nat) as usize,
                g.vocab_size,
            ),
        ],
    }
}

impl LanguageModel {
    /// The variables of the model, by name and shape.
    pub fn variables(&self) -> (r: Vec<VarSpec>)
        requires
            self.well_formed(),
            self matches LanguageModel::Gpt(g) ==> 4 * g.embed_dims <= usize::MAX,
        ensures
            var_views(r@) == model_vars(*self),
    {
        match self {
            LanguageModel::BigramLM(b) => {
                let mut out: Vec<VarSpec> = Vec::new();
                push_var(
                    &mut out,
                    make_matrix("embeddings".to_owned(), b.vocab_size, b.vocab_size),
                );
                assert(var_views(out@) =~= model_vars(*self));
                out
            },
            LanguageModel::Gpt(g) => g.variables(),
            LanguageModel::Ngram(g) => {
                let mut out: Vec<VarSpec> = Vec::new();
                push_var(
                    &mut out,
                    make_matrix("embeddings".to_owned(), g.num_keys(), g.vocab_size),
                );
                assert(var_views(out@) =~= model_vars(*self));
                out
            },
        }
    }
}

proof fn lemma_total_push(v: Seq<VarView>, x: VarView)
    ensures
        total_elements(v.push(x)) == total_elements(v) + elements(x.dims),
{
    assert(v.push(x).drop_last() =~= v);
}

proof fn lemma_head_total(prefix: Seq<char>, n: nat, size: usize, h: usize)
    ensures
        total_elements(head_vars(prefix, n, size, h)) == n * (3 * (size as nat * h as nat)),
    decreases n,
{
    if n > 0 {
        lemma_head_total(prefix, (n - 1) as nat, size, h);
        let head = prefix + "attn.head_"@ + decimal((n - 1) as nat);
        let a = matrix(head + ".key.weight"@, size, h);
        let b = matrix(head + ".query.weight"@, size, h);
        let c = matrix(head + ".value.weight"@, size, h);
        let rest = head_vars(prefix, (n - 1) as nat, size, h);
        lemma_matrix_elements(a.name, size, h);
        lemma_matrix_elements(b.name, size, h);
        lemma_matrix_elements(c.name, size, h);
        assert(head_vars(prefix, n, size, h) =~= rest.push(a).push(b).push(c));
        lemma_total_push(rest, a);
        lemma_total_push(rest.push(a), b);
        lemma_total_push(rest.push(a).push(b), c);
        let p = size as nat * h as nat;
        assert(n * (3 * p) == (n - 1) * (3 * p) + 3 * p) by (nonlinear_arith);
    } else {
        assert(0 * (3 * (size as nat * h as nat)) == 0);
    }
}

proof fn lemma_tail_total(prefix: Seq<char>, h: usize)
    requires
        4 * h <= usize::MAX,
    ensures
        total_elements(block_tail(prefix, h, h)) == h * h + h + (4 * h) * h + 4 * h + h * (4 * h)
            + h + 4 * h,
{
    let q = (4 * h) as usize;
    let e = Seq::<VarView>::empty();
    let v0 = matrix(prefix + "attn.proj.weight"@, h, h);
    let v1 = vector(prefix + "attn.proj.bias"@, h);
    let v2 = matrix(prefix + "ffwd.fc1.weight"@, q, h);
    let v3 = vector(prefix + "ffwd.fc1.bias"@, q);
    let v4 = matrix(prefix + "ffwd.fc2.weight"@, h, q);
    let v5 = vector(prefix + "ffwd.fc2.bias"@, h);
    let v6 = vector(prefix + "ln1.weight"@, h);
    let v7 = vector(prefix + "ln1.bias"@, h);
    let v8 = vector(prefix + "ln2.weight"@, h);
    let v9 = vector(prefix + "ln2.bias"@, h);
    lemma_matrix_elements(v0.name, h, h);
    lemma_matrix_elements(v2.name, q, h);
    lemma_matrix_elements(v4.name, h, q);
    lemma_vector_elements(v1.name, h);
    lemma_vector_elements(v3.name, q);
    lemma_vector_elements(v5.name, h);
    lemma_vector_elements(v6.name, h);
    lemma_vector_elements(v7.name, h);
    lemma_vector_elements(v8.name, h);
    lemma_vector_elements(v9.name, h);
    let s1 = e.push(v0);
    let s2 = s1.push(v1);
    let s3 = s2.push(v2);
    let s4 = s3.push(v3);
    let s5 = s4.push(v4);
    let s6 = s5.push(v5);
    let s7 = s6.push(v6);
    let s8 = s7.push(v7);
    let s9 = s8.push(v8);
    let s10 = s9.push(v9);
    lemma_total_push(e, v0);
    lemma_total_push(s1, v1);
    lemma_total_push(s2, v2);
    lemma_total_push(s3, v3);
    lemma_total_push(s4, v4);
    lemma_total_push(s5, v5);
    lemma_total_push(s6, v6);
    lemma_total_push(s7, v7);
    lemma_total_push(s8, v8);
    lemma_total_push(s9, v9);
    assert(block_tail(prefix, h, h) =~= s10);
}

/// The number of parameters of one block.
pub open spec fn block_params(h: nat) -> nat {
    3 * h * h + h * h + h + h * 4 * h + 4 * h + 4 * h * h + h + 4 * h
}

proof fn lemma_block_total(i: nat, heads: usize, h: usize)
    requires
        divides(heads, h),
        4 * h <= usize::MAX,
    ensures
        total_elements(block_vars(i, heads, h)) == block_params(h as nat),
{
    let size = h / heads;
    lemma_width(h, heads);
    lemma_head_total(block_prefix(i), heads as nat, size, h);
    lemma_tail_total(block_prefix(i), h);
    lemma_total_add(
        head_vars(block_prefix(i), heads as nat, size, h),
        block_tail(block_prefix(i), h, h),
    );
    assert(heads * (3 * (size * h)) == 3 * h * h) by (nonlinear_arith)
        requires
            heads * size == h,
    ;
    assert((4 * h) * h == h * 4 * h) by (nonlinear_arith);
    assert(h * (4 * h) == 4 * h * h) by (nonlinear_arith);
}

proof fn lemma_blocks_total(schedule: Seq<usize>, n: nat, h: usize)
    requires
        n <= schedule.len(),
        forall|i: int| 0 <= i < schedule.len() ==> divides(#[trigger] schedule[i], h),
        4 * h <= usize::MAX,
    ensures
        total_elements(blocks_vars(schedule, n, h)) == n * block_params(h as nat),
    decreases n,
{
    if n > 0 {
        lemma_blocks_total(schedule, (n - 1) as nat, h);
        lemma_block_total((n - 1) as nat, schedule[n - 1], h);
        lemma_total_add(
            blocks_vars(schedule, (n - 1) as nat, h),
            block_vars((n - 1) as nat, schedule[n - 1], h),
        );
        let p = block_params(h as nat);
        assert(n * p == (n - 1) * p + p) by (nonlinear_arith);
    } else {
        assert(0 * block_params(h as nat) == 0);
    }
}

/// The estimate of a transformer's parameters is their exact number, whatever
/// the head counts. A tied output layer saves its weight.
pub proof fn law_estimate_is_exact(
    vocab: usize,
    block: usize,
    h: usize,
    schedule: Seq<usize>,
)
    requires
        schedule_valid(h, schedule, schedule.len() as int),
        4 * h <= usize::MAX,
    ensures
        total_elements(gpt_vars(vocab, block, h, schedule, false)) == gpt_params(
            vocab as nat,
            block as nat,
            h as nat,
            schedule.len(),
        ),
        total_elements(gpt_vars(vocab, block, h, schedule, true)) + vocab * h == gpt_params(
            vocab as nat,
            block as nat,
            h as nat,
            schedule.len(),
        ),
{
    let e = Seq::<VarView>::empty();
    let t = matrix("token_embeddings"@, vocab, h);
    let p = matrix("position_embeddings"@, block, h);
    let w = matrix("lm_head.weight"@, vocab, h);
    let b = vector("lm_head.bias"@, vocab);
    lemma_matrix_elements(t.name, vocab, h);
    lemma_matrix_elements(p.name, block, h);
    lemma_matrix_elements(w.name, vocab, h);
    lemma_vector_elements(b.name, vocab);
    let head = seq![t, p];
    assert(head =~= e.push(t).push(p));
    lemma_total_push(e, t);
    lemma_total_push(e.push(t), p);
    let mid = blocks_vars(schedule, schedule.len(), h);
    lemma_blocks_total(schedule, schedule.len(), h);
    lemma_total_add(head, mid);
    assert(seq![b] =~= e.push(b));
    assert(seq![w, b] =~= e.push(w).push(b));
    lemma_total_push(e, b);
    lemma_total_push(e, w);
    lemma_total_push(e.push(w), b);
    lemma_total_add(head + mid, seq![b]);
    lemma_total_add(head + mid, seq![w, b]);
    assert(vocab * h == h * vocab) by (nonlinear_arith);
}

/// How many parameters a model of a named type has, as far as a `usize` can
/// tell, or `None` for an unknown type.
pub open spec fn params_estimate(
    model_type: Seq<char>,
    vocab: nat,
    block: nat,
    hidden: nat,
    blocks: nat,
) -> Option<nat> {
    if model_type == "bigram"@ {
        Some(vocab * vocab)
    } else if model_type == "ngram"@ {
        let n = power(vocab, block + 1);
        Some(
            if n > usize::MAX {
                usize::MAX as nat
            } else {
                n
            },
        )
    } else if model_type == "gpt"@ {
        Some(gpt_params(vocab, block, hidden, blocks))
    } else {
        None
    }
}

/// Whether the estimate can be computed in a `usize`.
pub open spec fn estimate_fits(
    model_type: Seq<char>,
    vocab: usize,
    block: usize,
    hidden: usize,
    blocks: usize,
) -> bool {
    &&& model_type == "ngram"@ ==> block < usize::MAX
    &&& params_estimate(
        model_type,
        vocab as nat,
        block as nat,
        hidden as nat,
        blocks as nat,
    ) matches Some(n) ==> n <= usize::MAX
}

/// How many parameters a model of a named type has, or `None` for an unknown
/// type. An n-gram table that is too large counts as `usize::MAX`. The head
/// counts do not matter.
pub fn estimate_params(
    model_type: &str,
    vocab_size: usize,
    block_size: usize,
    hidden_size: usize,
    num_blocks: usize,
) -> (r: Option<usize>)
    requires
        estimate_fits(model_type@, vocab_size, block_size, hidden_size, num_blocks),
    ensures
        match params_estimate(
            model_type@,
            vocab_size as nat,
            block_size as nat,
            hidden_size as nat,
            num_blocks as nat,
        ) {
            Some(n) => r == Some(n as usize) && n <= usize::MAX,
            None => r is None,
        },
{
    proof {
        reveal_strlit("bigram");
        reveal_strlit("ngram");
        reveal_strlit("gpt");
    }
    if same_text(model_type, "bigram") {
        Some(vocab_size * vocab_size)
    } else if same_text(model_type, "ngram") {
        match checked_power(vocab_size, block_size + 1) {
            Some(p) => Some(p),
            None => Some(usize::MAX),
        }
    } else if same_text(model_type, "gpt") {
        let v: usize = vocab_size;
        let b: usize = block_size;
        let h: usize = hidden_size;
        let nb: usize = num_blocks;
        proof {
            lemma_gpt_terms(v as nat, b as nat, h as nat, nb as nat);
        }
        if nb == 0 {
            return Some(v * h + b * h + h * v + v);
        }
        let per_block: usize = 3 * h * h + h * h + h + h * 4 * h + 4 * h + 4 * h * h + h + 4 * h;
        Some(v * h + b * h + nb * per_block + h * v + v)
    } else {
        None
    }
}

/// Whether the number of parameters of a transformer is a `usize`.
fn gpt_estimate_fits(v: usize, b: usize, h: usize, nb: usize) -> (r: bool)
    ensures
        r == (gpt_params(v as nat, b as nat, h as nat, nb as nat) <= usize::MAX),
{
    let most: u128 = usize::MAX as u128;
    proof {
        lemma_gpt_terms(v as nat, b as nat, h as nat, nb as nat);
        lemma_product_bound(v as nat, h as nat);
        lemma_product_bound(b as nat, h as nat);
        lemma_product_bound(h as nat, h as nat);
        assert(h * v == v * h) by (nonlinear_arith);
        assert(block_params(h as nat) == 12 * (h * h) + 10 * h) by (nonlinear_arith);
    }
    let vh: u128 = v as u128 * h as u128;
    let bh: u128 = b as u128 * h as u128;
    if vh > most || bh > most {
        return false;
    }
    let mut blocks: u128 = 0;
    if nb > 0 {
        let hh: u128 = h as u128 * h as u128;
        if hh > most {
            return false;
        }
        let per_block: u128 = 12 * hh + 10 * h as u128;
        if per_block > most {
            return false;
        }
        proof {
            lemma_product_bound(nb as nat, per_block as nat);
        }
        blocks = nb as u128 * per_block;
        if blocks > most {
            return false;
        }
    }
    vh + bh + blocks + vh + v as u128 <= most
}

proof fn lemma_product_bound(a: nat, b: nat)
    requires
        a <= usize::MAX,
        b <= usize::MAX,
    ensures
        0 <= a * b <= u128::MAX,
{
    assert(0 <= a * b <= 0xffff_ffff_ffff_ffff * 0xffff_ffff_ffff_ffff) by (nonlinear_arith)
        requires
            a <= 0xffff_ffff_ffff_ffff,
            b <= 0xffff_ffff_ffff_ffff,
    ;
}

/// Whether the number of parameters of a model can be estimated in a `usize`.
pub fn can_estimate(
    model_type: &str,
    vocab_size: usize,
    block_size: usize,
    hidden_size: usize,
    num_blocks: usize,
) -> (r: bool)
    ensures
        r == estimate_fits(model_type@, vocab_size, block_size, hidden_size, num_blocks),
{
    proof {
        reveal_strlit("bigram");
        reveal_strlit("ngram");
        reveal_strlit("gpt");
        assert("bigram"@.len() == 6 && "ngram"@.len() == 5 && "gpt"@.len() == 3);
    }
    if same_text(model_type, "bigram") {
        proof {
            lemma_product_bound(vocab_size as nat, vocab_size as nat);
        }
        vocab_size as u128 * vocab_size as u128 <= usize::MAX as u128
    } else if same_text(model_type, "ngram") {
        block_size < usize::MAX
    } else if same_text(model_type, "gpt") {
        gpt_estimate_fits(vocab_size, block_size, hidden_size, num_blocks)
    } else {
        true
    }
}

/// Every term of the sum is at most the sum.
proof fn lemma_gpt_terms(v: nat, b: nat, h: nat, nb: nat)
    ensures
        v * h >= 0,
        b * h >= 0,
        h * v >= 0,
        nb * block_params(h) >= 0,
        nb > 0 ==> nb * block_params(h) >= block_params(h),
        nb == 0 ==> nb * block_params(h) == 0,
        3 * h * h >= 0,
        3 * h <= 3 * h * h,
        h * h >= 0,
        h * 4 * h >= 0,
        h * 4 <= h * 4 * h,
        4 * h <= 4 * h * h,
        4 * h * h >= 0,
        gpt_params(v, b, h, nb) == v * h + b * h + nb * block_params(h) + h * v + v,
{
    let p = block_params(h);
    assert(v * h >= 0) by (nonlinear_arith);
    assert(b * h >= 0) by (nonlinear_arith);
    assert(h * v >= 0) by (nonlinear_arith);
    assert(3 * h * h >= 3 * h) by (nonlinear_arith);
    assert(h * h >= 0) by (nonlinear_arith);
    assert(h * 4 * h >= h * 4) by (nonlinear_arith);
    assert(4 * h * h >= 4 * h) by (nonlinear_arith);
    assert(nb * p >= 0) by (nonlinear_arith);
    assert(nb > 0 ==> nb * p >= p) by (nonlinear_arith);
    assert(nb == 0 ==> nb * p == 0) by (nonlinear_arith);
}

/// The number of entries of a variable multiplies with its dimensions, and the
/// parameters of lists of variables add up.
pub proof fn law_elements_multiply(dims: Seq<usize>, n: usize, a: Seq<VarView>, b: Seq<VarView>)
    ensures
        elements(Seq::empty()) == 1,
        elements(dims.push(n)) == elements(dims) * n,
        total_elements(Seq::empty()) == 0,
        total_elements(a + b) == total_elements(a) + total_elements(b),
        b.len() == 1 ==> total_elements(b) == elements(b[0].dims),
{
    assert(dims.push(n).drop_last() =~= dims);
    lemma_total_add(a, b);
    if b.len() == 1 {
        assert(b.drop_last() =~= Seq::<VarView>::empty());
        assert(total_elements(b.drop_last()) == 0);
    }
}

/// What one more token of the vocabulary, one more position and one more block
/// add to the parameters of a transformer; without any of them there are none.
pub proof fn law_parameters_grow(vocab: nat, block: nat, h: nat, blocks: nat)
    ensures
        gpt_params(0, 0, h, 0) == 0,
        gpt_params(vocab + 1, block, h, blocks) == gpt_params(vocab, block, h, blocks) + 2 * h + 1,
        gpt_params(vocab, block + 1, h, blocks) == gpt_params(vocab, block, h, blocks) + h,
        gpt_params(vocab, block, h, blocks + 1) == gpt_params(vocab, block, h, blocks) + 12 * (h
            * h) + 10 * h,
{
    let p = block_params(h);
    assert(p == 12 * (h * h) + 10 * h) by (nonlinear_arith)
        requires
            p == 3 * h * h + h * h + h + h * 4 * h + 4 * h + 4 * h * h + h + 4 * h,
    ;
    lemma_gpt_terms(vocab, block, h, blocks);
    lemma_gpt_terms(vocab + 1, block, h, blocks);
    lemma_gpt_terms(vocab, block + 1, h, blocks);
    lemma_gpt_terms(vocab, block, h, blocks + 1);
    lemma_gpt_terms(0, 0, h, 0);
    assert((vocab + 1) * h == vocab * h + h) by (nonlinear_arith);
    assert(h * (vocab + 1) == h * vocab + h) by (nonlinear_arith);
    assert((block + 1) * h == block * h + h) by (nonlinear_arith);
    assert((blocks + 1) * p == blocks * p + p) by (nonlinear_arith);
    assert(0 * h == 0 && h * 0 == 0) by (nonlinear_arith);
}

/// A bigram table has a row and a column for each token, an n-gram table as many
/// entries as there are sequences of one token more than its context, or the
/// largest number where that is too large, and an unknown type no estimate.
pub proof fn law_estimates_by_type(vocab: nat, block: nat, hidden: nat, blocks: nat)
    ensures
        params_estimate("bigram"@, vocab, block, hidden, blocks) == Some(vocab * vocab),
        params_estimate("ngram"@, vocab, block, hidden, blocks) matches Some(n) && (n == power(
            vocab,
            block + 1,
        ) || (n == usize::MAX && power(vocab, block + 1) > usize::MAX)),
        params_estimate("gpt"@, vocab, block, hidden, blocks) == Some(
            gpt_params(vocab, block, hidden, blocks),
        ),
        params_estimate("bigram"@, vocab, block, hidden, blocks) == params_estimate(
            "ngram"@,
            vocab,
            1,
            hidden,
            blocks,
        ) || vocab * vocab > usize::MAX,
{
    reveal_strlit("bigram");
    reveal_strlit("ngram");
    reveal_strlit("gpt");
    assert("bigram"@.len() == 6 && "ngram"@.len() == 5 && "gpt"@.len() == 3);
    law_power_multiplies(vocab, 1, 1);
}

/// The variables of a block: for each head its key, query and value, each of the
/// width of a head by the hidden size, and ten more; the heads together are as
/// wide as the hidden size.
pub proof fn law_variables_of_a_block(i: nat, heads: usize, h: usize, k: int)
    requires
        divides(heads, h),
        0 <= k < heads,
    ensures
        block_vars(i, heads, h).len() == 3 * heads + 10,
        heads * (h / heads) == h,
        ({
            let head = "blocks.block_"@ + decimal(i) + "."@ + "attn.head_"@ + decimal(k as nat);
            let v = block_vars(i, heads, h);
            &&& v[3 * k].name == head + ".key.weight"@
            &&& v[3 * k + 1].name == head + ".query.weight"@
            &&& v[3 * k + 2].name == head + ".value.weight"@
            &&& v[3 * k].dims == seq![h / heads, h]
            &&& v[3 * k + 1].dims == seq![h / heads, h]
            &&& v[3 * k + 2].dims == seq![h / heads, h]
        }),
{
    lemma_head_vars_at(block_prefix(i), heads as nat, h / heads, h, k);
    vstd::arithmetic::div_mod::lemma_fundamental_div_mod(h as int, heads as int);
}

proof fn lemma_head_vars_at(prefix: Seq<char>, n: nat, size: usize, h: usize, k: int)
    requires
        0 <= k < n,
    ensures
        head_vars(prefix, n, size, h).len() == 3 * n,
        ({
            let head = prefix + "attn.head_"@ + decimal(k as nat);
            let v = head_vars(prefix, n, size, h);
            &&& v[3 * k] == matrix(head + ".key.weight"@, size, h)
            &&& v[3 * k + 1] == matrix(head + ".query.weight"@, size, h)
            &&& v[3 * k + 2] == matrix(head + ".value.weight"@, size, h)
        }),
    decreases n,
{
    if n > 1 {
        if k < n - 1 {
            lemma_head_vars_at(prefix, (n - 1) as nat, size, h, k);
        } else {
            lemma_head_vars_at(prefix, (n - 1) as nat, size, h, 0);
        }
    } else {
        assert(head_vars(prefix, 0, size, h).len() == 0);
    }
}

/// The other variables of a block: the projection of the heads, two layers with
/// four times the hidden size between them, and two norms.
pub proof fn law_layers_of_a_block(i: nat, heads: usize, h: usize)
    requires
        divides(heads, h),
        4 * h <= usize::MAX,
    ensures
        ({
            let at = "blocks.block_"@ + decimal(i) + "."@;
            let v = block_vars(i, heads, h).skip(3 * heads as int);
            let wide = (4 * h) as usize;
            &&& v.len() == 10
            &&& v[0].name == at + "attn.proj.weight"@ && v[0].dims == seq![h, h]
            &&& v[1].name == at + "attn.proj.bias"@ && v[1].dims == seq![h]
            &&& v[2].name == at + "ffwd.fc1.weight"@ && v[2].dims == seq![wide, h]
            &&& v[3].name == at + "ffwd.fc1.bias"@ && v[3].dims == seq![wide]
            &&& v[4].name == at + "ffwd.fc2.weight"@ && v[4].dims == seq![h, wide]
            &&& v[5].name == at + "ffwd.fc2.bias"@ && v[5].dims == seq![h]
            &&& v[6].name == at + "ln1.weight"@ && v[6].dims == seq![h]
            &&& v[7].name == at + "ln1.bias"@ && v[7].dims == seq![h]
            &&& v[8].name == at + "ln2.weight"@ && v[8].dims == seq![h]
            &&& v[9].name == at + "ln2.bias"@ && v[9].dims == seq![h]
        }),
{
    lemma_head_vars_at(block_prefix(i), heads as nat, h / heads, h, 0);
    vstd::arithmetic::div_mod::lemma_fundamental_div_mod(h as int, heads as int);
    let v = block_vars(i, heads, h).skip(3 * heads as int);
    assert(v =~= block_tail(block_prefix(i), h, h));
}

/// A transformer has its two tables of embeddings, then the variables of its
/// blocks in order, then its output layer.
pub proof fn law_variables_of_a_transformer(
    vocab: usize,
    block: usize,
    h: usize,
    schedule: Seq<usize>,
    heads: usize,
    tied: bool,
)
    ensures
        ({
            let v = gpt_vars(vocab, block, h, schedule, tied);
            let n = v.len();
            &&& v[0].name == "token_embeddings"@ && v[0].dims == seq![vocab, h]
            &&& v[1].name == "position_embeddings"@ && v[1].dims == seq![block, h]
            &&& v[n - 1].name == "lm_head.bias"@ && v[n - 1].dims == seq![vocab]
            &&& !tied ==> v[n - 2].name == "lm_head.weight"@ && v[n - 2].dims == seq![vocab, h]
            &&& v.subrange(
                2,
                n - if tied {
                    1int
                } else {
                    2
                },
            ) == blocks_vars(schedule, schedule.len(), h)
        }),
        blocks_vars(Seq::empty(), 0, h) == Seq::<VarView>::empty(),
        blocks_vars(schedule.push(heads), schedule.len() + 1, h) == blocks_vars(
            schedule,
            schedule.len(),
            h,
        ) + block_vars(schedule.len(), heads, h),
{
    let mid = blocks_vars(schedule, schedule.len(), h);
    let v = gpt_vars(vocab, block, h, schedule, tied);
    assert(v.subrange(
        2,
        v.len() - if tied {
            1int
        } else {
            2
        },
    ) =~= mid);
    lemma_blocks_prefix(schedule, schedule.push(heads), schedule.len(), h);
}

proof fn lemma_blocks_prefix(a: Seq<usize>, b: Seq<usize>, n: nat, h: usize)
    requires
        n <= a.len(),
        n <= b.len(),
        forall|i: int| 0 <= i < n ==> #[trigger] a[i] == b[i],
    ensures
        blocks_vars(a, n, h) == blocks_vars(b, n, h),
    decreases n,
{
    if n > 0 {
        lemma_blocks_prefix(a, b, (n - 1) as nat, h);
        assert(a[n - 1] == b[n - 1]);
    }
}

/// Models of the same architecture have the same variables, see as many tokens
/// and know as many.
pub proof fn law_same_architecture_same_variables(a: LanguageModel, b: LanguageModel)
    requires
        same_architecture(a, b),
    ensures
        model_vars(a) == model_vars(b),
        a.block_size() == b.block_size(),
        a.vocab_size() == b.vocab_size(),
        a is Gpt <==> b is Gpt,
        a is Ngram <==> b is Ngram,
        a is BigramLM <==> b is BigramLM,
{
}

/// A bigram model is one table with a row for each token, an n-gram model one
/// with a row for each context, and both have a column for each token.
pub proof fn law_tables_have_a_row_for_each_context(vocab: usize, n: usize)
    requires
        n >= 2,
        power(vocab as nat, (n - 1) as nat) <= usize::MAX,
    ensures
        ({
            let v = model_vars(LanguageModel::BigramLM(BigramLM { vocab_size: vocab }));
            &&& v.len() == 1
            &&& v[0].name == "embeddings"@
            &&& v[0].dims == seq![vocab, vocab]
        }),
        ({
            let v = model_vars(LanguageModel::Ngram(NgramLM { vocab_size: vocab, n }));
            &&& v.len() == 1
            &&& v[0].name == "embeddings"@
            &&& v[0].dims == seq![power(vocab as nat, (n - 1) as nat) as usize, vocab]
        }),
{
}

} // verus!
