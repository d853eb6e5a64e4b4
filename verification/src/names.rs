//! The names of a model's variables: no two are equal, so that a file of named
//! tensors can hold them all.
use crate::layout::block_prefix;
use crate::layout::block_tail;
use crate::layout::block_vars;
use crate::layout::blocks_vars;
use crate::layout::gpt_vars;
use crate::layout::head_vars;
use crate::layout::matrix;
use crate::layout::vector;
use crate::layout::VarView;
use crate::number::decimal;
use crate::number::is_digit;
use crate::number::lemma_decimal;
use crate::text::lemma_before_is;
use vstd::prelude::*;
use vstd::string::*;

verus! {

/// Whether no two variables have the same name.
pub open spec fn names_differ(v: Seq<VarView>) -> bool {
    forall|i: int, j: int| 0 <= i < j < v.len() ==> (#[trigger] v[i]).name != (#[trigger] v[j]).name
}

/// Whether no variable of one list has the name of one of the other.
pub open spec fn names_apart(v: Seq<VarView>, w: Seq<VarView>) -> bool {
    forall|i: int, j: int|
        0 <= i < v.len() && 0 <= j < w.len() ==> (#[trigger] v[i]).name != (#[trigger] w[j]).name
}

proof fn lemma_join(v: Seq<VarView>, w: Seq<VarView>)
    requires
        names_differ(v),
        names_differ(w),
        names_apart(v, w),
    ensures
        names_differ(v + w),
{
    let all = v + w;
    let n = v.len() as int;
    assert forall|i: int, j: int| 0 <= i < j < all.len() implies (#[trigger] all[i]).name != (
    #[trigger] all[j]).name by {
        if j < n {
            assert(v[i].name != v[j].name);
        } else if i < n {
            assert(v[i].name != w[j - n].name);
        } else {
            assert(w[i - n].name != w[j - n].name);
        }
    }
}

/// A number, a dot and a rest can be told from each other.
proof fn lemma_number_and_rest(a: nat, s: Seq<char>, b: nat, t: Seq<char>)
    requires
        decimal(a) + (seq!['.'] + s) == decimal(b) + (seq!['.'] + t),
    ensures
        a == b,
        s == t,
{
    lemma_decimal(a);
    lemma_decimal(b);
    let x = decimal(a);
    let y = decimal(b);
    let whole = x + (seq!['.'] + s);
    assert forall|i: int| 0 <= i < x.len() implies #[trigger] whole[i] != '.' by {
        assert(is_digit(x[i]));
    }
    assert(whole[x.len() as int] == '.');
    lemma_before_is(whole, '.', x.len() as int);
    let other = y + (seq!['.'] + t);
    assert forall|i: int| 0 <= i < y.len() implies #[trigger] other[i] != '.' by {
        assert(is_digit(y[i]));
    }
    assert(other[y.len() as int] == '.');
    lemma_before_is(other, '.', y.len() as int);
    let n = x.len() as int;
    assert(x =~= whole.take(n));
    assert(y =~= other.take(n));
    assert(s =~= whole.skip(n + 1));
    assert(t =~= other.skip(n + 1));
}

/// A block and the rest of a name can be told from each other.
proof fn lemma_block_and_rest(i: nat, s: Seq<char>, j: nat, t: Seq<char>)
    requires
        block_prefix(i) + s == block_prefix(j) + t,
    ensures
        i == j,
        s == t,
{
    let head = "blocks.block_"@;
    let dot = "."@;
    reveal_strlit("blocks.block_");
    reveal_strlit(".");
    assert(dot =~= seq!['.']);
    let x = block_prefix(i) + s;
    let y = block_prefix(j) + t;
    let n = head.len() as int;
    assert(x.skip(n) =~= decimal(i) + (seq!['.'] + s));
    assert(y.skip(n) =~= decimal(j) + (seq!['.'] + t));
    lemma_number_and_rest(i, s, j, t);
}

/// The end of the name of a projection of head `k`.
spec fn head_suffix(k: nat, which: int) -> Seq<char> {
    "attn.head_"@ + decimal(k) + if which == 0 {
        ".key.weight"@
    } else if which == 1 {
        ".query.weight"@
    } else {
        ".value.weight"@
    }
}

/// The head and the projection can be told from the end of a name.
proof fn lemma_head_suffix(k: nat, a: int, l: nat, b: int)
    requires
        0 <= a < 3,
        0 <= b < 3,
        head_suffix(k, a) == head_suffix(l, b),
    ensures
        k == l,
        a == b,
{
    reveal_strlit("attn.head_");
    reveal_strlit(".key.weight");
    reveal_strlit(".query.weight");
    reveal_strlit(".value.weight");
    let ends = seq![".key.weight"@, ".query.weight"@, ".value.weight"@];
    let s = ends[a].skip(1);
    let t = ends[b].skip(1);
    assert(ends[a] =~= seq!['.'] + s);
    assert(ends[b] =~= seq!['.'] + t);
    let n = "attn.head_"@.len() as int;
    assert(head_suffix(k, a).skip(n) =~= decimal(k) + (seq!['.'] + s));
    assert(head_suffix(l, b).skip(n) =~= decimal(l) + (seq!['.'] + t));
    lemma_number_and_rest(k, s, l, t);
    assert(s[0] == t[0]);
    assert(ends[a][1] == s[0]);
    assert(ends[b][1] == t[0]);
}

/// Whether a variable is a projection of one of the first `n` heads of the block
/// with the prefix `prefix`.
spec fn is_head_var(prefix: Seq<char>, n: nat, v: VarView) -> bool {
    exists|k: nat, which: int|
        k < n && 0 <= which < 3 && v.name == prefix + #[trigger] head_suffix(k, which)
}

proof fn lemma_same_prefix(prefix: Seq<char>, s: Seq<char>, t: Seq<char>)
    requires
        prefix + s == prefix + t,
    ensures
        s == t,
{
    assert(s =~= (prefix + s).skip(prefix.len() as int));
    assert(t =~= (prefix + t).skip(prefix.len() as int));
}

proof fn lemma_heads_differ(prefix: Seq<char>, n: nat, size: usize, h: usize)
    ensures
        names_differ(head_vars(prefix, n, size, h)),
        forall|i: int|
            0 <= i < head_vars(prefix, n, size, h).len() ==> is_head_var(
                prefix,
                n,
                #[trigger] head_vars(prefix, n, size, h)[i],
            ),
    decreases n,
{
    if n > 0 {
        let k = (n - 1) as nat;
        lemma_heads_differ(prefix, k, size, h);
        let old_vars = head_vars(prefix, k, size, h);
        let head = prefix + "attn.head_"@ + decimal(k);
        let three = seq![
            matrix(head + ".key.weight"@, size, h),
            matrix(head + ".query.weight"@, size, h),
            matrix(head + ".value.weight"@, size, h),
        ];
        assert(head + ".key.weight"@ =~= prefix + head_suffix(k, 0));
        assert(head + ".query.weight"@ =~= prefix + head_suffix(k, 1));
        assert(head + ".value.weight"@ =~= prefix + head_suffix(k, 2));
        assert forall|i: int| 0 <= i < 3 implies (#[trigger] three[i]).name == prefix + head_suffix(
            k,
            i,
        ) by {}
        assert forall|i: int, j: int| 0 <= i < j < three.len() implies (#[trigger] three[i]).name
            != (#[trigger] three[j]).name by {
            if three[i].name == three[j].name {
                lemma_same_prefix(prefix, head_suffix(k, i), head_suffix(k, j));
                lemma_head_suffix(k, i, k, j);
            }
        }
        assert forall|i: int, j: int| 0 <= i < old_vars.len() && 0 <= j < three.len() implies (
        #[trigger] old_vars[i]).name != (#[trigger] three[j]).name by {
            assert(is_head_var(prefix, k, old_vars[i]));
            let (l, which) = choose|l: nat, which: int|
                l < k && 0 <= which < 3 && old_vars[i].name == prefix + #[trigger] head_suffix(
                    l,
                    which,
                );
            if old_vars[i].name == three[j].name {
                lemma_same_prefix(prefix, head_suffix(l, which), head_suffix(k, j));
                lemma_head_suffix(l, which, k, j);
            }
        }
        lemma_join(old_vars, three);
        let all = head_vars(prefix, n, size, h);
        assert(all =~= old_vars + three);
        assert forall|i: int| 0 <= i < all.len() implies is_head_var(prefix, n, #[trigger] all[i]) by {
            if i < old_vars.len() {
                assert(is_head_var(prefix, k, old_vars[i]));
                let (l, which) = choose|l: nat, which: int|
                    l < k && 0 <= which < 3 && old_vars[i].name == prefix + #[trigger] head_suffix(
                        l,
                        which,
                    );
                assert(all[i].name == prefix + head_suffix(l, which));
            } else {
                assert(all[i].name == prefix + head_suffix(k, i - old_vars.len()));
            }
        }
    }
}

/// The ends of the names of a block's variables behind its heads.
spec fn tail_suffixes() -> Seq<Seq<char>> {
    seq![
        "attn.proj.weight"@,
        "attn.proj.bias"@,
        "ffwd.fc1.weight"@,
        "ffwd.fc1.bias"@,
        "ffwd.fc2.weight"@,
        "ffwd.fc2.bias"@,
        "ln1.weight"@,
        "ln1.bias"@,
        "ln2.weight"@,
        "ln2.bias"@,
    ]
}

proof fn lemma_tail_suffixes()
    ensures
        forall|i: int, j: int|
            0 <= i < j < 10 ==> #[trigger] tail_suffixes()[i] != #[trigger] tail_suffixes()[j],
        forall|i: int| 0 <= i < 10 ==> (#[trigger] tail_suffixes()[i]).len() <= 16,
{
    reveal_strlit("attn.proj.weight");
    reveal_strlit("attn.proj.bias");
    reveal_strlit("ffwd.fc1.weight");
    reveal_strlit("ffwd.fc1.bias");
    reveal_strlit("ffwd.fc2.weight");
    reveal_strlit("ffwd.fc2.bias");
    reveal_strlit("ln1.weight");
    reveal_strlit("ln1.bias");
    reveal_strlit("ln2.weight");
    reveal_strlit("ln2.bias");
    let ends = tail_suffixes();
    assert(ends[0].len() == 16 && ends[1].len() == 14);
    assert(ends[2].len() == 15 && ends[3].len() == 13);
    assert(ends[4].len() == 15 && ends[5].len() == 13);
    assert(ends[6].len() == 10 && ends[7].len() == 8);
    assert(ends[8].len() == 10 && ends[9].len() == 8);
    assert(ends[2][7] != ends[4][7]);
    assert(ends[3][7] != ends[5][7]);
    assert(ends[6][2] != ends[8][2]);
    assert(ends[7][2] != ends[9][2]);
    assert forall|i: int, j: int| 0 <= i < j < 10 implies #[trigger] ends[i]
        != #[trigger] ends[j] by {
        if ends[i] == ends[j] {
            assert(ends[i].len() == ends[j].len());
        }
    }
}

proof fn lemma_head_suffix_is_long(k: nat, which: int)
    ensures
        head_suffix(k, which).len() > 16,
{
    lemma_decimal(k);
    reveal_strlit("attn.head_");
    reveal_strlit(".key.weight");
    reveal_strlit(".query.weight");
    reveal_strlit(".value.weight");
}

/// Whether a variable belongs to the block `i`.
spec fn is_block_var(i: nat, v: VarView) -> bool {
    exists|s: Seq<char>| v.name == #[trigger] (block_prefix(i) + s)
}

/// Whether a variable belongs to one of the first `n` blocks.
spec fn in_some_block(n: nat, v: VarView) -> bool {
    exists|i: nat| i < n && #[trigger] is_block_var(i, v)
}

proof fn lemma_block_differs(i: nat, heads: usize, h: usize)
    ensures
        names_differ(block_vars(i, heads, h)),
        forall|k: int|
            0 <= k < block_vars(i, heads, h).len() ==> is_block_var(
                i,
                #[trigger] block_vars(i, heads, h)[k],
            ),
{
    let prefix = block_prefix(i);
    let size = h / heads;
    let first = head_vars(prefix, heads as nat, size, h);
    let second = block_tail(prefix, (heads * size) as usize, h);
    let ends = tail_suffixes();
    lemma_heads_differ(prefix, heads as nat, size, h);
    lemma_tail_suffixes();
    assert forall|k: int| 0 <= k < 10 implies (#[trigger] second[k]).name == prefix + ends[k] by {}
    assert forall|a: int, b: int| 0 <= a < b < second.len() implies (#[trigger] second[a]).name != (
    #[trigger] second[b]).name by {
        if second[a].name == second[b].name {
            lemma_same_prefix(prefix, ends[a], ends[b]);
        }
    }
    assert forall|a: int, b: int| 0 <= a < first.len() && 0 <= b < second.len() implies (
    #[trigger] first[a]).name != (#[trigger] second[b]).name by {
        assert(is_head_var(prefix, heads as nat, first[a]));
        let (l, which) = choose|l: nat, which: int|
            l < heads as nat && 0 <= which < 3 && first[a].name == prefix + #[trigger] head_suffix(
                l,
                which,
            );
        lemma_head_suffix_is_long(l, which);
        if first[a].name == second[b].name {
            lemma_same_prefix(prefix, head_suffix(l, which), ends[b]);
        }
    }
    lemma_join(first, second);
    let all = block_vars(i, heads, h);
    assert(all =~= first + second);
    assert forall|k: int| 0 <= k < all.len() implies is_block_var(i, #[trigger] all[k]) by {
        if k < first.len() {
            assert(is_head_var(prefix, heads as nat, first[k]));
            let (l, which) = choose|l: nat, which: int|
                l < heads as nat && 0 <= which < 3 && first[k].name == prefix
                    + #[trigger] head_suffix(l, which);
            assert(all[k].name == block_prefix(i) + head_suffix(l, which));
        } else {
            assert(all[k].name == block_prefix(i) + ends[k - first.len()]);
        }
    }
}

proof fn lemma_blocks_differ(schedule: Seq<usize>, n: nat, h: usize)
    ensures
        names_differ(blocks_vars(schedule, n, h)),
        forall|k: int|
            0 <= k < blocks_vars(schedule, n, h).len() ==> in_some_block(
                n,
                #[trigger] blocks_vars(schedule, n, h)[k],
            ),
    decreases n,
{
    if n > 0 {
        let last = (n - 1) as nat;
        lemma_blocks_differ(schedule, last, h);
        lemma_block_differs(last, schedule[n - 1], h);
        let v = blocks_vars(schedule, last, h);
        let w = block_vars(last, schedule[n - 1], h);
        assert forall|a: int, b: int| 0 <= a < v.len() && 0 <= b < w.len() implies (
        #[trigger] v[a]).name != (#[trigger] w[b]).name by {
            assert(in_some_block(last, v[a]));
            let i = choose|i: nat| i < last && #[trigger] is_block_var(i, v[a]);
            let s = choose|s: Seq<char>| v[a].name == #[trigger] (block_prefix(i) + s);
            assert(is_block_var(last, w[b]));
            let t = choose|t: Seq<char>| w[b].name == #[trigger] (block_prefix(last) + t);
            if v[a].name == w[b].name {
                lemma_block_and_rest(i, s, last, t);
            }
        }
        lemma_join(v, w);
        let all = blocks_vars(schedule, n, h);
        assert(all =~= v + w);
        assert forall|k: int| 0 <= k < all.len() implies in_some_block(n, #[trigger] all[k]) by {
            if k < v.len() {
                assert(in_some_block(last, v[k]));
                let i = choose|i: nat| i < last && #[trigger] is_block_var(i, v[k]);
                assert(is_block_var(i, all[k]));
            } else {
                assert(is_block_var(last, w[k - v.len()]));
                assert(is_block_var(last, all[k]));
            }
        }
    }
}

/// No two variables of a transformer have the same name.
pub proof fn law_variable_names_differ(
    vocab: usize,
    block: usize,
    h: usize,
    schedule: Seq<usize>,
    tied: bool,
)
    ensures
        names_differ(gpt_vars(vocab, block, h, schedule, tied)),
{
    let first = seq![
        matrix("token_embeddings"@, vocab, h),
        matrix("position_embeddings"@, block, h),
    ];
    let mid = blocks_vars(schedule, schedule.len(), h);
    let last = if tied {
        seq![vector("lm_head.bias"@, vocab)]
    } else {
        seq![matrix("lm_head.weight"@, vocab, h), vector("lm_head.bias"@, vocab)]
    };
    lemma_blocks_differ(schedule, schedule.len(), h);
    reveal_strlit("blocks.block_");
    reveal_strlit("token_embeddings");
    reveal_strlit("position_embeddings");
    reveal_strlit("lm_head.weight");
    reveal_strlit("lm_head.bias");
    assert forall|k: int| 0 <= k < mid.len() implies (#[trigger] mid[k]).name[0] == 'b'
        && mid[k].name.len() > 0 by {
        assert(in_some_block(schedule.len(), mid[k]));
        let i = choose|i: nat| i < schedule.len() && #[trigger] is_block_var(i, mid[k]);
        let s = choose|s: Seq<char>| mid[k].name == #[trigger] (block_prefix(i) + s);
        assert(mid[k].name[0] == "blocks.block_"@[0]);
    }
    assert(first[0].name[0] == 't' && first[1].name[0] == 'p');
    assert("lm_head.weight"@.len() == 14 && "lm_head.bias"@.len() == 12);
    assert forall|k: int| 0 <= k < last.len() implies (#[trigger] last[k]).name[0] == 'l' by {}
    lemma_join(first, mid);
    let front = first + mid;
    assert forall|a: int, b: int| 0 <= a < front.len() && 0 <= b < last.len() implies (
    #[trigger] front[a]).name != (#[trigger] last[b]).name by {
        assert(last[b].name[0] == 'l');
        if a >= 2 {
            assert(mid[a - 2].name[0] == 'b');
        }
    }
    lemma_join(front, last);
    assert(gpt_vars(vocab, block, h, schedule, tied) =~= front + last);
}

} // verus!
