//! Head counts per transformer block: how they are given, checked and stored.
use crate::error::fails_with;
use crate::error::ErrorView;
use crate::error::SmolError;
use crate::error::SmolResult;
use crate::list::copy_list;
use crate::number::all_digits;
use crate::number::decimal;
use crate::number::is_digit;
use crate::number::law_decimal_parses_back;
use crate::number::lemma_decimal;
use crate::number::parse_usize_chars;
use crate::number::parsed_nat;
use crate::number::push_decimal;
use crate::text::before;
use crate::text::chars_of;
use crate::text::is_white;
use crate::text::lemma_before_is;
use crate::text::pieces;
use crate::text::law_pieces_of_joined_texts;
use crate::text::law_trimming_removes_the_ends;
use crate::text::split_chars;
use crate::text::trim_chars;
use crate::text::trimmed;
use crate::text::trimmed_end;
use crate::text::trimmed_start;
use vstd::prelude::*;
use vstd::string::*;

verus! {

/// `n` entries `h`.
pub open spec fn uniform(h: usize, n: nat) -> Seq<usize> {
    Seq::new(n, |i: int| h)
}

fn uniform_list(h: usize, n: usize) -> (r: Vec<usize>)
    ensures
        r@ == uniform(h, n as nat),
{
    let mut out: Vec<usize> = Vec::new();
    let mut i: usize = 0;
    while i < n
        invariant
            i <= n,
            out@ == uniform(h, i as nat),
        decreases n - i,
    {
        out.push(h);
        i += 1;
        assert(out@ =~= uniform(h, i as nat));
    }
    out
}

/// The message for a list of head counts that fits no number of blocks.
pub open spec fn heads_count_message(given: int, blocks: int) -> Seq<char> {
    "--num-heads has "@ + decimal(given as nat) + " entries but num_blocks is "@ + decimal(
        blocks as nat,
    ) + "; pass either a single number (applied to every block) or a comma-separated list with exactly "@
        + decimal(blocks as nat) + " entries, e.g. --num-heads 1,2,4,8"@
}

/// One head count per block: a single number applies to every block, a list
/// with one entry per block is taken as it is, and any other list is an error.
pub fn resolve_heads_schedule(num_heads: &Vec<usize>, num_blocks: usize) -> (r: SmolResult<
    Vec<usize>,
>)
    ensures
        num_heads@.len() == 1 ==> (r matches Ok(v) && v@ == uniform(
            num_heads@[0],
            num_blocks as nat,
        )),
        num_heads@.len() != 1 && num_heads@.len() == num_blocks ==> (r matches Ok(v) && v@
            == num_heads@),
        num_heads@.len() != 1 && num_heads@.len() != num_blocks ==> fails_with(
            r,
            ErrorView::InvalidArgument(
                heads_count_message(num_heads@.len() as int, num_blocks as int),
            ),
        ),
{
    if num_heads.len() == 1 {
        Ok(uniform_list(num_heads[0], num_blocks))
    } else if num_heads.len() == num_blocks {
        Ok(copy_list(num_heads))
    } else {
        let mut m: String = "--num-heads has ".to_owned();
        push_decimal(&mut m, num_heads.len() as u64);
        m.append(" entries but num_blocks is ");
        push_decimal(&mut m, num_blocks as u64);
        m.append("; pass either a single number (applied to every block) or a comma-separated list with exactly ");
        push_decimal(&mut m, num_blocks as u64);
        m.append(" entries, e.g. --num-heads 1,2,4,8");
        Err(SmolError::InvalidArgument(m))
    }
}

/// Whether `hidden` can be shared out evenly among `heads` heads.
pub open spec fn divides(heads: usize, hidden: usize) -> bool {
    heads != 0 && hidden % heads == 0
}

/// Whether a schedule has one entry per block, and each can share `hidden`.
pub open spec fn schedule_valid(hidden: usize, schedule: Seq<usize>, blocks: int) -> bool {
    &&& schedule.len() == blocks
    &&& forall|i: int| 0 <= i < schedule.len() ==> divides(#[trigger] schedule[i], hidden)
}

/// Whether `i` is the first block whose head count cannot share `hidden`.
pub open spec fn first_bad_block(hidden: usize, schedule: Seq<usize>, i: int) -> bool {
    &&& 0 <= i < schedule.len()
    &&& !divides(schedule[i], hidden)
    &&& forall|k: int| 0 <= k < i ==> divides(#[trigger] schedule[k], hidden)
}

/// The message for a schedule of the wrong length.
pub open spec fn schedule_length_message(len: int, blocks: int) -> Seq<char> {
    "heads schedule has "@ + decimal(len as nat) + " entries but num_blocks is "@ + decimal(
        blocks as nat,
    ) + "; --num-heads must be either a single number (applied to every block) or a comma-separated list with exactly "@
        + decimal(blocks as nat) + " entries"@
}

/// The message for a head count that does not divide the hidden size.
pub open spec fn divisor_message(hidden: int, heads: int, block: int) -> Seq<char> {
    "hidden_size ("@ + decimal(hidden as nat) + ") must be divisible by num_heads ("@ + decimal(
        heads as nat,
    ) + ") at block "@ + decimal(block as nat)
}

/// Checks a schedule. The error names the first block that does not fit.
pub fn validate_heads_schedule(
    embed_dims: usize,
    heads_schedule: &Vec<usize>,
    num_blocks: usize,
) -> (r: SmolResult<()>)
    ensures
        r is Ok <==> schedule_valid(embed_dims, heads_schedule@, num_blocks as int),
        heads_schedule@.len() != num_blocks ==> fails_with(
            r,
            ErrorView::InvalidArgument(
                schedule_length_message(heads_schedule@.len() as int, num_blocks as int),
            ),
        ),
        heads_schedule@.len() == num_blocks ==> forall|i: int|
            #[trigger] first_bad_block(embed_dims, heads_schedule@, i) ==> fails_with(
                r,
                ErrorView::InvalidArgument(
                    divisor_message(embed_dims as int, heads_schedule@[i] as int, i),
                ),
            ),
{
    if heads_schedule.len() != num_blocks {
        let mut m: String = "heads schedule has ".to_owned();
        push_decimal(&mut m, heads_schedule.len() as u64);
        m.append(" entries but num_blocks is ");
        push_decimal(&mut m, num_blocks as u64);
        m.append("; --num-heads must be either a single number (applied to every block) or a comma-separated list with exactly ");
        push_decimal(&mut m, num_blocks as u64);
        m.append(" entries");
        return Err(SmolError::InvalidArgument(m));
    }
    let mut i: usize = 0;
    while i < heads_schedule.len()
        invariant
            i <= heads_schedule.len(),
            heads_schedule@.len() == num_blocks,
            forall|k: int| 0 <= k < i ==> divides(#[trigger] heads_schedule@[k], embed_dims),
        decreases heads_schedule.len() - i,
    {
        let h: usize = heads_schedule[i];
        if h == 0 || embed_dims % h != 0 {
            let mut m: String = "hidden_size (".to_owned();
            push_decimal(&mut m, embed_dims as u64);
            m.append(") must be divisible by num_heads (");
            push_decimal(&mut m, h as u64);
            m.append(") at block ");
            push_decimal(&mut m, i as u64);
            proof {
                assert(!divides(heads_schedule@[i as int], embed_dims));
                assert forall|k: int| #[trigger]
                    first_bad_block(embed_dims, heads_schedule@, k) implies k == i by {
                    if k < i {
                        assert(divides(heads_schedule@[k], embed_dims));
                    } else if k > i {
                        assert(divides(heads_schedule@[i as int], embed_dims));
                    }
                }
            }
            return Err(SmolError::InvalidArgument(m));
        }
        assert(divides(heads_schedule@[i as int], embed_dims));
        i += 1;
    }
    Ok(())
}

/// The numbers of `v` with a comma between each two.
pub open spec fn csv(v: Seq<usize>) -> Seq<char>
    decreases v.len(),
{
    if v.len() == 0 {
        seq![]
    } else if v.len() == 1 {
        decimal(v[0] as nat)
    } else {
        csv(v.drop_last()).push(',') + decimal(v.last() as nat)
    }
}

/// A schedule as it is stored and as it is given on a command line.
pub fn heads_schedule_to_csv(heads_schedule: &Vec<usize>) -> (r: String)
    ensures
        r@ == csv(heads_schedule@),
{
    let mut out: String = String::new();
    let mut i: usize = 0;
    while i < heads_schedule.len()
        invariant
            i <= heads_schedule.len(),
            out@ == csv(heads_schedule@.take(i as int)),
        decreases heads_schedule.len() - i,
    {
        if i > 0 {
            out.push(',');
        }
        push_decimal(&mut out, heads_schedule[i] as u64);
        proof {
            let t = heads_schedule@.take(i + 1);
            assert(t.drop_last() =~= heads_schedule@.take(i as int));
            assert(out@ =~= csv(t));
        }
        i += 1;
    }
    assert(heads_schedule@.take(i as int) =~= heads_schedule@);
    out
}

/// The numbers that a list separated by commas holds, if each entry is one.
/// White space around an entry is ignored.
pub open spec fn csv_numbers(s: Seq<char>) -> Option<Seq<usize>> {
    let entries = pieces(s, ',');
    if forall|i: int|
        0 <= i < entries.len() ==> parsed_nat(
            trimmed(#[trigger] entries[i]),
            usize::MAX as nat,
        ) is Some {
        Some(
            entries.map_values(
                |e: Seq<char>| parsed_nat(trimmed(e), usize::MAX as nat)->0 as usize,
            ),
        )
    } else {
        None
    }
}

fn parse_csv(v: &Vec<char>) -> (r: Option<Vec<usize>>)
    ensures
        match r {
            Some(l) => csv_numbers(v@) == Some(l@),
            None => csv_numbers(v@) is None,
        },
{
    let entries: Vec<Vec<char>> = split_chars(v, ',');
    let ghost views = entries@.map_values(|p: Vec<char>| p@);
    let mut out: Vec<usize> = Vec::new();
    let mut i: usize = 0;
    while i < entries.len()
        invariant
            i <= entries.len(),
            views == entries@.map_values(|p: Vec<char>| p@),
            views == pieces(v@, ','),
            out@.len() == i,
            forall|k: int|
                0 <= k < i ==> parsed_nat(trimmed(#[trigger] views[k]), usize::MAX as nat) == Some(
                    out@[k] as nat,
                ),
        decreases entries.len() - i,
    {
        let entry: Vec<char> = trim_chars(&entries[i]);
        assert(views[i as int] == entries@[i as int]@);
        match parse_usize_chars(&entry) {
            Some(n) => {
                out.push(n);
            },
            None => {
                return None;
            },
        }
        i += 1;
    }
    proof {
        let f = |e: Seq<char>| parsed_nat(trimmed(e), usize::MAX as nat)->0 as usize;
        assert(out@ =~= views.map_values(f)) by {
            assert forall|k: int| 0 <= k < out@.len() implies #[trigger] out@[k] == f(views[k]) by {
                assert(parsed_nat(trimmed(views[k]), usize::MAX as nat) == Some(out@[k] as nat));
            }
        }
    }
    Some(out)
}

/// The schedule that a stored row stands for: the stored list, or where there
/// is none, or none that can be read, the same head count in every block. A
/// negative number counts as zero, and one too large for a `usize` is cut off.
pub open spec fn stored_schedule(stored: Seq<char>, num_heads: int, num_blocks: int) -> Seq<usize> {
    let fallback = uniform(
        if num_heads < 0 {
            0
        } else {
            num_heads as usize
        },
        if num_blocks < 0 {
            0
        } else {
            (num_blocks as usize) as nat
        },
    );
    if trimmed(stored).len() == 0 {
        fallback
    } else {
        match csv_numbers(stored) {
            Some(v) => v,
            None => fallback,
        }
    }
}

/// The schedule that a stored row stands for.
pub fn parse_heads_schedule_column(
    heads_schedule: &str,
    num_heads: i64,
    num_blocks: i64,
) -> (r: Vec<usize>)
    ensures
        r@ == stored_schedule(heads_schedule@, num_heads as int, num_blocks as int),
{
    let v: Vec<char> = chars_of(heads_schedule);
    let t: Vec<char> = trim_chars(&v);
    #[verifier::truncate]
    let heads: usize = num_heads as usize;
    #[verifier::truncate]
    let blocks: usize = num_blocks as usize;
    let h: usize = if num_heads < 0 {
        0
    } else {
        heads
    };
    let n: usize = if num_blocks < 0 {
        0
    } else {
        blocks
    };
    if t.len() == 0 {
        return uniform_list(h, n);
    }
    match parse_csv(&v) {
        Some(l) => l,
        None => uniform_list(h, n),
    }
}

proof fn lemma_digits_trimmed(s: Seq<char>)
    requires
        all_digits(s),
    ensures
        trimmed(s) == s,
{
    if s.len() > 0 {
        assert(is_digit(s[0]));
        assert(is_digit(s[s.len() - 1]));
        assert(!is_white(s[0]));
        assert(!is_white(s.last()));
    }
}

proof fn lemma_no_comma(s: Seq<char>)
    requires
        all_digits(s),
    ensures
        before(s, ',') == s.len(),
{
    assert forall|i: int| 0 <= i < s.len() implies #[trigger] s[i] != ',' by {
        assert(is_digit(s[i]));
    }
    lemma_before_is(s, ',', s.len() as int);
}

/// Splitting `s`, a comma and digits gives the pieces of `s` and the digits.
proof fn lemma_pieces_push(s: Seq<char>, d: Seq<char>)
    requires
        all_digits(d),
    ensures
        pieces(s.push(',') + d, ',') == pieces(s, ',').push(d),
    decreases s.len(),
{
    let t = s.push(',') + d;
    let k = before(s, ',');
    crate::text::lemma_before(s, ',');
    assert forall|i: int| 0 <= i < k implies #[trigger] t[i] != ',' by {
        assert(t[i] == s[i]);
    }
    assert(t[k] == ',') by {
        if k < s.len() {
            assert(t[k] == s[k]);
        }
    }
    lemma_before_is(t, ',', k);
    assert(t.take(k) =~= s.take(k));
    if k >= s.len() {
        assert(s.take(k) =~= s);
        assert(t.skip(k + 1) =~= d);
        lemma_no_comma(d);
        assert(pieces(d, ',') =~= seq![d]);
        assert(pieces(t, ',') =~= pieces(s, ',').push(d));
    } else {
        assert(t.skip(k + 1) =~= s.skip(k + 1).push(',') + d);
        lemma_pieces_push(s.skip(k + 1), d);
        assert(pieces(t, ',') =~= pieces(s, ',').push(d));
    }
}

proof fn lemma_csv_pieces(v: Seq<usize>)
    requires
        v.len() > 0,
    ensures
        pieces(csv(v), ',') == v.map_values(|h: usize| decimal(h as nat)),
        csv(v).len() > 0,
        is_digit(csv(v)[0]),
    decreases v.len(),
{
    lemma_decimal(v.last() as nat);
    if v.len() == 1 {
        lemma_no_comma(decimal(v[0] as nat));
        assert(is_digit(decimal(v[0] as nat)[0]));
        assert(pieces(csv(v), ',') =~= v.map_values(|h: usize| decimal(h as nat)));
    } else {
        lemma_csv_pieces(v.drop_last());
        lemma_pieces_push(csv(v.drop_last()), decimal(v.last() as nat));
        assert(v.drop_last().map_values(|h: usize| decimal(h as nat)).push(
            decimal(v.last() as nat),
        ) =~= v.map_values(|h: usize| decimal(h as nat)));
        assert(csv(v)[0] == csv(v.drop_last())[0]);
    }
}

/// A schedule that is not empty is read back from its stored form as it was,
/// whatever the head count and the number of blocks beside it say.
pub proof fn law_schedule_reads_back(v: Seq<usize>, num_heads: int, num_blocks: int)
    requires
        v.len() > 0,
    ensures
        stored_schedule(csv(v), num_heads, num_blocks) == v,
{
    lemma_csv_pieces(v);
    let entries = pieces(csv(v), ',');
    assert forall|i: int| 0 <= i < entries.len() implies parsed_nat(
        trimmed(#[trigger] entries[i]),
        usize::MAX as nat,
    ) == Some(v[i] as nat) by {
        assert(entries[i] == decimal(v[i] as nat));
        lemma_decimal(v[i] as nat);
        lemma_digits_trimmed(entries[i]);
        law_decimal_parses_back(v[i] as nat, usize::MAX as nat);
    }
    assert(csv_numbers(csv(v))->0 =~= v);
    assert(!is_white(csv(v)[0]));
    assert(trimmed_start(csv(v)) == csv(v));
    lemma_trimmed_end_nonempty(csv(v));
}

proof fn lemma_trimmed_end_nonempty(s: Seq<char>)
    requires
        s.len() > 0,
        !is_white(s[0]),
    ensures
        trimmed_end(s).len() > 0,
    decreases s.len(),
{
    if is_white(s.last()) {
        assert(s.len() > 1);
        assert(s.drop_last()[0] == s[0]);
        lemma_trimmed_end_nonempty(s.drop_last());
    }
}

/// The smallest entry of a schedule, or zero where it is empty.
pub open spec fn is_representative(v: Seq<usize>, h: usize) -> bool {
    if v.len() == 0 {
        h == 0
    } else {
        &&& v.contains(h)
        &&& forall|i: int| 0 <= i < v.len() ==> h <= #[trigger] v[i]
    }
}

/// The smallest head count of a schedule, or zero where it is empty.
pub fn representative_heads(v: &Vec<usize>) -> (h: usize)
    ensures
        is_representative(v@, h),
{
    if v.len() == 0 {
        return 0;
    }
    let mut h: usize = v[0];
    let mut i: usize = 1;
    assert(v@[0] == h);
    while i < v.len()
        invariant
            1 <= i <= v.len(),
            v@.contains(h),
            forall|k: int| 0 <= k < i ==> h <= #[trigger] v@[k],
        decreases v.len() - i,
    {
        if v[i] < h {
            h = v[i];
            assert(v@[i as int] == h);
        }
        i += 1;
    }
    h
}

/// The representative of a uniform schedule is its common head count.
pub proof fn law_uniform_representative(h: usize, n: nat, r: usize)
    requires
        n > 0,
        is_representative(uniform(h, n), r),
    ensures
        r == h,
{
    let v = uniform(h, n);
    let i = choose|i: int| 0 <= i < v.len() && v[i] == r;
    assert(v[i] == h);
}

/// The representative of a schedule is its least entry, and zero where it has
/// none.
pub proof fn law_representative_is_least(v: Seq<usize>, h: usize)
    requires
        is_representative(v, h),
    ensures
        v.len() == 0 ==> h == 0,
        v.len() > 0 ==> exists|i: int| 0 <= i < v.len() && #[trigger] v[i] == h,
        forall|i: int| 0 <= i < v.len() ==> h <= #[trigger] v[i],
{
}

/// A uniform schedule has the same head count in every block.
pub proof fn law_uniform_schedule_repeats(h: usize, n: nat, i: int)
    ensures
        uniform(h, n).len() == n,
        0 <= i < n ==> uniform(h, n)[i] == h,
{
}

/// A schedule fits exactly where it has one entry for each block and every
/// entry shares out the hidden size without a rest. The first block that does
/// not fit is the one with no other before it.
pub proof fn law_valid_schedule_shares_evenly(hidden: usize, schedule: Seq<usize>, blocks: int)
    ensures
        schedule_valid(hidden, schedule, blocks) ==> schedule.len() == blocks && forall|i: int|
            0 <= i < schedule.len() ==> #[trigger] schedule[i] > 0 && schedule[i] * (hidden
                / schedule[i]) == hidden,
        schedule.len() == blocks && !schedule_valid(hidden, schedule, blocks) ==> exists|i: int|
            0 <= i < schedule.len() && (#[trigger] schedule[i] == 0 || schedule[i] * (hidden
                / schedule[i]) != hidden),
        schedule.len() != blocks ==> !schedule_valid(hidden, schedule, blocks),
        forall|i: int| #[trigger]
            first_bad_block(hidden, schedule, i) ==> {
                &&& 0 <= i < schedule.len()
                &&& schedule[i] == 0 || schedule[i] * (hidden / schedule[i]) != hidden
                &&& forall|k: int|
                    0 <= k < i ==> #[trigger] schedule[k] > 0 && schedule[k] * (hidden
                        / schedule[k]) == hidden
            },
{
    assert forall|i: int| 0 <= i < schedule.len() implies (divides(#[trigger] schedule[i], hidden)
        <==> schedule[i] > 0 && schedule[i] * (hidden / schedule[i]) == hidden) by {
        if schedule[i] > 0 {
            vstd::arithmetic::div_mod::lemma_fundamental_div_mod(
                hidden as int,
                schedule[i] as int,
            );
        }
    }
    if schedule.len() == blocks && !schedule_valid(hidden, schedule, blocks) {
        let i = choose|i: int|
            0 <= i < schedule.len() && !divides(#[trigger] schedule[i], hidden);
        assert(schedule[i] == 0 || schedule[i] * (hidden / schedule[i]) != hidden);
    }
    assert forall|i: int| #[trigger] first_bad_block(hidden, schedule, i) implies {
        &&& 0 <= i < schedule.len()
        &&& schedule[i] == 0 || schedule[i] * (hidden / schedule[i]) != hidden
        &&& forall|k: int|
            0 <= k < i ==> #[trigger] schedule[k] > 0 && schedule[k] * (hidden / schedule[k])
                == hidden
    } by {
        assert(!divides(schedule[i], hidden));
    }
}

/// A list of numbers is written with a comma between its parts, and a single
/// number as itself.
pub proof fn law_written_lists_join(a: Seq<usize>, b: Seq<usize>, h: usize)
    ensures
        csv(seq![h]) == decimal(h as nat),
        a.len() > 0 && b.len() > 0 ==> csv(a + b) == csv(a).push(',') + csv(b),
        csv(Seq::empty()) == Seq::<char>::empty(),
    decreases b.len(),
{
    assert(seq![h].len() == 1 && seq![h][0] == h);
    if a.len() > 0 && b.len() > 0 {
        let all = a + b;
        let rest = b.drop_last();
        assert(all.drop_last() =~= a + rest);
        assert(all.last() == b.last());
        if rest.len() == 0 {
            assert(a + rest =~= a);
        } else {
            law_written_lists_join(a, rest, h);
            assert(csv(all) =~= csv(a).push(',') + csv(b));
        }
    }
}

/// A written list reads as the numbers of its entries: an entry is a number with
/// white space around it, and a list with an entry that is none does not read.
pub proof fn law_read_lists_join(a: Seq<char>, b: Seq<char>)
    requires
        forall|i: int| 0 <= i < a.len() ==> #[trigger] a[i] != ',',
    ensures
        csv_numbers(a) == match parsed_nat(trimmed(a), usize::MAX as nat) {
            Some(n) => Some(seq![n as usize]),
            None => None,
        },
        csv_numbers(a.push(',') + b) == match (csv_numbers(a), csv_numbers(b)) {
            (Some(x), Some(y)) => Some(x + y),
            _ => None,
        },
{
    law_pieces_of_joined_texts(a, b, ',');
    let f = |e: Seq<char>| parsed_nat(trimmed(e), usize::MAX as nat)->0 as usize;
    let p = pieces(a, ',');
    let q = pieces(b, ',');
    let all = p + q;
    assert(p =~= seq![a]);
    assert(p.map_values(f) =~= seq![f(a)]);
    assert(all.map_values(f) =~= p.map_values(f) + q.map_values(f));
    let good = |e: Seq<char>| parsed_nat(trimmed(e), usize::MAX as nat) is Some;
    assert(csv_numbers(a) is Some <==> good(a)) by {
        assert(p[0] == a);
    }
    if csv_numbers(a) is Some && csv_numbers(b) is Some {
        assert forall|i: int| 0 <= i < all.len() implies parsed_nat(
            trimmed(#[trigger] all[i]),
            usize::MAX as nat,
        ) is Some by {
            if i > 0 {
                assert(all[i] == q[i - 1]);
            }
        }
    } else if csv_numbers(a) is None {
        assert(all[0] == a);
    } else {
        let k = choose|k: int|
            0 <= k < q.len() && parsed_nat(trimmed(#[trigger] q[k]), usize::MAX as nat) is None;
        assert(all[k + 1] == q[k]);
    }
}

/// A stored list that reads is the schedule; otherwise every block has the head
/// count of the row, and neither number counts below zero.
pub proof fn law_unreadable_schedule_is_uniform(
    stored: Seq<char>,
    num_heads: int,
    num_blocks: int,
)
    requires
        num_heads <= usize::MAX,
        num_blocks <= usize::MAX,
    ensures
        csv_numbers(stored) matches Some(v) ==> stored_schedule(stored, num_heads, num_blocks) == v,
        csv_numbers(stored) is None ==> {
            let s = stored_schedule(stored, num_heads, num_blocks);
            &&& num_blocks <= 0 ==> s.len() == 0
            &&& num_blocks > 0 ==> s.len() == num_blocks
            &&& forall|i: int|
                0 <= i < s.len() ==> #[trigger] s[i] == if num_heads < 0 {
                    0
                } else {
                    num_heads
                }
        },
{
    if trimmed(stored).len() == 0 {
        let ends = law_trimming_removes_the_ends(stored);
        assert forall|i: int| 0 <= i < stored.len() implies #[trigger] stored[i] != ',' by {
            assert(is_white(stored[i]));
        }
        law_pieces_of_joined_texts(stored, Seq::empty(), ',');
        assert(pieces(stored, ',')[0] == stored);
    }
}

} // verus!
