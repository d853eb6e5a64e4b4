//! The history of snapshots of a model's training: kept in the order of their
//! epochs, and thinned out when it grows too long.
use crate::registry::earlier;
use crate::registry::in_epoch_order;
use crate::registry::MAX_CHECKPOINT_GRIDS_PER_MODEL;
use crate::rows::CheckpointGridRecord;
use crate::table::lemma_rows_of_add;
use crate::table::lemma_rows_of_members;
use crate::table::lemma_rows_of_push;
use crate::table::rows_of;
use crate::table::OwnedRow;
use crate::text::same_text;
use vstd::prelude::*;

verus! {

/// The number of snapshots at the start of `h` that are no later than `epoch`.
pub open spec fn not_later(h: Seq<CheckpointGridRecord>, epoch: i64) -> nat
    decreases h.len(),
{
    if h.len() == 0 || h[0].epoch > epoch {
        0
    } else {
        1 + not_later(h.skip(1), epoch)
    }
}

/// A history with one more snapshot, behind those that are no later.
pub open spec fn inserted(h: Seq<CheckpointGridRecord>, row: CheckpointGridRecord) -> Seq<
    CheckpointGridRecord,
> {
    h.insert(not_later(h, row.epoch) as int, row)
}

/// Whether thinning keeps the snapshot at place `i` of `n`: the first, the last
/// and every other one between them.
pub open spec fn keeps(i: int, n: int) -> bool {
    i == 0 || i == n - 1 || i % 2 == 1
}

/// What thinning keeps of the first `k` snapshots.
pub open spec fn thinned_prefix(h: Seq<CheckpointGridRecord>, k: nat) -> Seq<CheckpointGridRecord>
    decreases k,
{
    if k == 0 {
        seq![]
    } else {
        let rest = thinned_prefix(h, (k - 1) as nat);
        if keeps(k - 1, h.len() as int) {
            rest.push(h[k - 1])
        } else {
            rest
        }
    }
}

/// What thinning keeps of a history.
pub open spec fn thinned(h: Seq<CheckpointGridRecord>) -> Seq<CheckpointGridRecord> {
    thinned_prefix(h, h.len())
}

/// A history with one more snapshot, thinned when it is over the limit.
pub open spec fn extended(h: Seq<CheckpointGridRecord>, row: CheckpointGridRecord) -> Seq<
    CheckpointGridRecord,
> {
    let more = inserted(h, row);
    if more.len() > MAX_CHECKPOINT_GRIDS_PER_MODEL {
        thinned(more)
    } else {
        more
    }
}

proof fn lemma_not_later_is(h: Seq<CheckpointGridRecord>, epoch: i64, k: int)
    requires
        0 <= k <= h.len(),
        forall|i: int| 0 <= i < k ==> (#[trigger] h[i]).epoch <= epoch,
        k < h.len() ==> h[k].epoch > epoch,
    ensures
        not_later(h, epoch) == k,
    decreases h.len(),
{
    if k > 0 {
        assert(h[0].epoch <= epoch);
        let t = h.skip(1);
        assert forall|i: int| 0 <= i < k - 1 implies (#[trigger] t[i]).epoch <= epoch by {
            assert(t[i] == h[i + 1]);
        }
        lemma_not_later_is(t, epoch, k - 1);
    }
}

proof fn lemma_not_later_bound(h: Seq<CheckpointGridRecord>, epoch: i64)
    ensures
        not_later(h, epoch) <= h.len(),
    decreases h.len(),
{
    if h.len() > 0 && h[0].epoch <= epoch {
        lemma_not_later_bound(h.skip(1), epoch);
    }
}

proof fn lemma_thinned_len(h: Seq<CheckpointGridRecord>, k: nat)
    requires
        k <= h.len(),
    ensures
        k == 0 ==> thinned_prefix(h, k).len() == 0,
        0 < k < h.len() ==> thinned_prefix(h, k).len() == 1 + k / 2,
        k == h.len() && k >= 2 ==> thinned_prefix(h, k).len() == 2 + (k - 1) / 2,
        k == h.len() && k == 1 ==> thinned_prefix(h, k).len() == 1,
    decreases k,
{
    if k > 0 {
        lemma_thinned_len(h, (k - 1) as nat);
    }
}

/// Thinning keeps the first and the last snapshot.
pub proof fn law_thinning_keeps_ends(h: Seq<CheckpointGridRecord>)
    requires
        h.len() > 0,
    ensures
        thinned(h).len() > 0,
        thinned(h).first() == h.first(),
        thinned(h).last() == h.last(),
{
    let n = h.len();
    lemma_thinned_len(h, n);
    lemma_thinned_first(h, n);
}

proof fn lemma_thinned_first(h: Seq<CheckpointGridRecord>, k: nat)
    requires
        0 < k <= h.len(),
    ensures
        thinned_prefix(h, k).len() > 0,
        thinned_prefix(h, k)[0] == h[0],
    decreases k,
{
    if k > 1 {
        lemma_thinned_first(h, (k - 1) as nat);
    } else {
        assert(thinned_prefix(h, 0).len() == 0);
    }
}

/// Thinning a history of more than two snapshots leaves at least half of it and
/// at most two more.
pub proof fn law_thinning_halves(h: Seq<CheckpointGridRecord>)
    requires
        h.len() > 2,
    ensures
        h.len() <= 2 * thinned(h).len(),
        2 * thinned(h).len() <= h.len() + 3,
{
    lemma_thinned_len(h, h.len());
}

/// Thinning drops every other snapshot: the first one stays, then the second,
/// the fourth and so on, and the last one.
pub proof fn law_thinning_drops_every_other(h: Seq<CheckpointGridRecord>, j: int)
    requires
        h.len() >= 2,
        1 <= j,
        2 * j - 1 < h.len() - 1,
    ensures
        j < thinned(h).len() - 1,
        thinned(h)[j] == h[2 * j - 1],
        thinned(h).len() == 2 + (h.len() - 1) / 2,
{
    lemma_thinned_len(h, h.len());
    lemma_thinned_at(h, h.len(), j);
}

proof fn lemma_thinned_at(h: Seq<CheckpointGridRecord>, k: nat, j: int)
    requires
        h.len() >= 2,
        1 <= j,
        2 * j - 1 < h.len() - 1,
        2 * j - 1 < k <= h.len(),
    ensures
        j < thinned_prefix(h, k).len(),
        thinned_prefix(h, k)[j] == h[2 * j - 1],
    decreases k,
{
    lemma_thinned_len(h, (k - 1) as nat);
    if 2 * j - 1 < k - 1 {
        lemma_thinned_at(h, (k - 1) as nat, j);
    } else {
        assert((k - 1) % 2 == 1);
    }
}

/// A new snapshot stands behind those of its epoch or earlier ones and before
/// the first later one; taken out again, it leaves the history as it was. Only a
/// history of more than three hundred is thinned.
pub proof fn law_snapshot_is_put_in_its_place(
    h: Seq<CheckpointGridRecord>,
    row: CheckpointGridRecord,
) -> (k: int)
    ensures
        0 <= k <= h.len(),
        inserted(h, row).len() == h.len() + 1,
        inserted(h, row)[k] == row,
        inserted(h, row).remove(k) == h,
        forall|i: int| 0 <= i < k ==> (#[trigger] h[i]).epoch <= row.epoch,
        k < h.len() ==> h[k].epoch > row.epoch,
        h.len() < 300 ==> extended(h, row) == inserted(h, row),
        h.len() >= 300 ==> extended(h, row) == thinned(inserted(h, row)),
{
    let k = not_later(h, row.epoch) as int;
    lemma_not_later_bound(h, row.epoch);
    lemma_not_later_splits(h, row.epoch);
    assert(inserted(h, row).remove(k) =~= h);
    k
}

proof fn lemma_not_later_splits(h: Seq<CheckpointGridRecord>, epoch: i64)
    ensures
        forall|i: int| 0 <= i < not_later(h, epoch) ==> (#[trigger] h[i]).epoch <= epoch,
        not_later(h, epoch) < h.len() ==> h[not_later(h, epoch) as int].epoch > epoch,
    decreases h.len(),
{
    if h.len() > 0 && h[0].epoch <= epoch {
        let t = h.skip(1);
        lemma_not_later_splits(t, epoch);
        lemma_not_later_bound(t, epoch);
        assert forall|i: int| 0 <= i < not_later(h, epoch) implies (#[trigger] h[i]).epoch
            <= epoch by {
            if i > 0 {
                assert(h[i] == t[i - 1]);
            }
        }
        if not_later(t, epoch) < t.len() {
            assert(t[not_later(t, epoch) as int] == h[not_later(h, epoch) as int]);
        }
    }
}

/// A history that is within the limit stays within it.
pub proof fn law_history_stays_short(h: Seq<CheckpointGridRecord>, row: CheckpointGridRecord)
    requires
        h.len() <= MAX_CHECKPOINT_GRIDS_PER_MODEL,
    ensures
        extended(h, row).len() <= MAX_CHECKPOINT_GRIDS_PER_MODEL,
{
    lemma_not_later_bound(h, row.epoch);
    let more = inserted(h, row);
    if more.len() > MAX_CHECKPOINT_GRIDS_PER_MODEL {
        law_thinning_halves(more);
    }
}

/// A new snapshot of the latest epoch so far is the last of its history.
pub proof fn law_latest_snapshot_is_last(h: Seq<CheckpointGridRecord>, row: CheckpointGridRecord)
    requires
        forall|i: int| 0 <= i < h.len() ==> (#[trigger] h[i]).epoch <= row.epoch,
    ensures
        extended(h, row).len() > 0,
        extended(h, row).last() == row,
{
    lemma_not_later_is(h, row.epoch, h.len() as int);
    let more = inserted(h, row);
    assert(more.last() == row);
    if more.len() > MAX_CHECKPOINT_GRIDS_PER_MODEL {
        law_thinning_keeps_ends(more);
    }
}

proof fn lemma_rows_of_epochs(
    rows: Seq<CheckpointGridRecord>,
    id: Seq<char>,
    epoch: i64,
    above: bool,
)
    requires
        forall|i: int|
            0 <= i < rows.len() ==> (if above {
                (#[trigger] rows[i]).epoch > epoch
            } else {
                rows[i].epoch <= epoch
            }),
    ensures
        forall|i: int|
            0 <= i < rows_of(rows, id).len() ==> (if above {
                (#[trigger] rows_of(rows, id)[i]).epoch > epoch
            } else {
                rows_of(rows, id)[i].epoch <= epoch
            }),
{
    lemma_rows_of_members(rows, id);
    let f = rows_of(rows, id);
    assert forall|i: int| 0 <= i < f.len() implies (if above {
        (#[trigger] f[i]).epoch > epoch
    } else {
        f[i].epoch <= epoch
    }) by {
        assert(rows.contains(f[i]));
        let k = choose|k: int| 0 <= k < rows.len() && rows[k] == f[i];
        assert(rows[k] == f[i]);
    }
}

proof fn lemma_insert_order(rows: Seq<CheckpointGridRecord>, p: int, row: CheckpointGridRecord)
    requires
        in_epoch_order(rows),
        0 <= p <= rows.len(),
        forall|i: int| 0 <= i < p ==> (#[trigger] rows[i]).epoch <= row.epoch,
        p < rows.len() ==> rows[p].epoch > row.epoch,
        forall|i: int| 0 <= i < rows.len() ==> (#[trigger] rows[i]).id < row.id,
    ensures
        in_epoch_order(rows.insert(p, row)),
        forall|x: Seq<char>|
            #[trigger] rows_of(rows.insert(p, row), x) == if x == row.owner() {
                inserted(rows_of(rows, x), row)
            } else {
                rows_of(rows, x)
            },
{
    let out = rows.insert(p, row);
    let first = rows.take(p);
    let rest = rows.skip(p);
    assert forall|i: int| p <= i < rows.len() implies (#[trigger] rows[i]).epoch > row.epoch by {
        if i > p {
            assert(earlier(rows[p], rows[i]));
        }
    }
    assert forall|i: int, j: int| 0 <= i < j < out.len() implies earlier(
        #[trigger] out[i],
        #[trigger] out[j],
    ) by {
        let a = if i < p {
            i
        } else {
            i - 1
        };
        let b = if j < p {
            j
        } else {
            j - 1
        };
        if i == p {
            assert(out[j] == rows[b]);
        } else if j == p {
            assert(out[i] == rows[a]);
        } else {
            assert(out[i] == rows[a]);
            assert(out[j] == rows[b]);
        }
    }
    assert forall|x: Seq<char>| #[trigger] rows_of(out, x) == if x == row.owner() {
        inserted(rows_of(rows, x), row)
    } else {
        rows_of(rows, x)
    } by {
        assert(out =~= first.push(row) + rest);
        assert(rows =~= first + rest);
        lemma_rows_of_add(first.push(row), rest, x);
        lemma_rows_of_add(first, rest, x);
        lemma_rows_of_push(first, row, x);
        if x == row.owner() {
            let a = rows_of(first, x);
            let b = rows_of(rest, x);
            let h = a + b;
            lemma_rows_of_epochs(first, x, row.epoch, false);
            lemma_rows_of_epochs(rest, x, row.epoch, true);
            assert forall|i: int| 0 <= i < a.len() implies (#[trigger] h[i]).epoch <= row.epoch by {
                assert(h[i] == a[i]);
            }
            if a.len() < h.len() {
                assert(h[a.len() as int] == b[0]);
            }
            lemma_not_later_is(h, row.epoch, a.len() as int);
            assert(a.push(row) + b =~= h.insert(a.len() as int, row));
        }
    }
}

/// Adds a snapshot to the table, in its place.
pub(crate) fn insert_snapshot(rows: &mut Vec<CheckpointGridRecord>, row: CheckpointGridRecord)
    requires
        in_epoch_order(old(rows)@),
        forall|i: int| 0 <= i < old(rows)@.len() ==> (#[trigger] old(rows)@[i]).id < row.id,
    ensures
        in_epoch_order(final(rows)@),
        forall|x: Seq<char>|
            #[trigger] rows_of(final(rows)@, x) == if x == row.owner() {
                inserted(rows_of(old(rows)@, x), row)
            } else {
                rows_of(old(rows)@, x)
            },
        forall|i: int|
            0 <= i < final(rows)@.len() ==> (#[trigger] final(rows)@[i] == row || old(
                rows,
            )@.contains(final(rows)@[i])),
{
    let mut p: usize = 0;
    while p < rows.len() && rows[p].epoch <= row.epoch
        invariant
            p <= rows.len(),
            rows@ == old(rows)@,
            forall|i: int| 0 <= i < p ==> (#[trigger] rows@[i]).epoch <= row.epoch,
        decreases rows.len() - p,
    {
        p += 1;
    }
    proof {
        lemma_insert_order(rows@, p as int, row);
    }
    rows.insert(p, row);
    proof {
        let o = old(rows)@;
        assert forall|i: int| 0 <= i < rows@.len() implies (#[trigger] rows@[i] == row || o.contains(
            rows@[i],
        )) by {
            if i < p {
                assert(rows@[i] == o[i]);
            } else if i > p {
                assert(rows@[i] == o[i - 1]);
            }
        }
    }
}

/// Thins the history of one model.
pub(crate) fn thin_rows(rows: &Vec<CheckpointGridRecord>, id: &str, n: usize) -> (r: Vec<
    CheckpointGridRecord,
>)
    requires
        in_epoch_order(rows@),
        n == rows_of(rows@, id@).len(),
    ensures
        in_epoch_order(r@),
        forall|x: Seq<char>|
            #[trigger] rows_of(r@, x) == if x == id@ {
                thinned(rows_of(rows@, x))
            } else {
                rows_of(rows@, x)
            },
        forall|i: int| 0 <= i < r@.len() ==> rows@.contains(#[trigger] r@[i]),
{
    let mut out: Vec<CheckpointGridRecord> = Vec::new();
    let ghost mut from: Seq<int> = Seq::empty();
    let ghost h = rows_of(rows@, id@);
    let mut c: usize = 0;
    let mut i: usize = 0;
    while i < rows.len()
        invariant
            i <= rows.len(),
            h == rows_of(rows@, id@),
            n == h.len(),
            c == rows_of(rows@.take(i as int), id@).len(),
            rows_of(out@, id@) == thinned_prefix(h, c as nat),
            forall|x: Seq<char>|
                x != id@ ==> #[trigger] rows_of(out@, x) == rows_of(rows@.take(i as int), x),
            from.len() == out@.len(),
            forall|k: int|
                0 <= k < from.len() ==> 0 <= #[trigger] from[k] < i && out@[k] == rows@[from[k]],
            forall|k: int, l: int| 0 <= k < l < from.len() ==> #[trigger] from[k] < #[trigger] from[l],
        decreases rows.len() - i,
    {
        let ghost before_push = out@;
        let ghost seen = rows@.take(i as int);
        proof {
            assert(rows@.take(i + 1) =~= seen.push(rows@[i as int]));
            lemma_rows_of_push(seen, rows@[i as int], id@);
            let rest = rows@.skip(i + 1);
            assert(rows@ =~= rows@.take(i + 1) + rest);
            lemma_rows_of_add(rows@.take(i + 1), rest, id@);
        }
        let mine: bool = same_text(rows[i].owner_text(), id);
        let keep: bool = !mine || c == 0 || c == n - 1 || c % 2 == 1;
        if keep {
            out.push(rows[i].copy_row());
            proof {
                from = from.push(i as int);
                assert forall|x: Seq<char>| x != id@ implies #[trigger] rows_of(out@, x) == rows_of(
                    rows@.take(i + 1),
                    x,
                ) by {
                    lemma_rows_of_push(before_push, rows@[i as int], x);
                    lemma_rows_of_push(seen, rows@[i as int], x);
                }
                lemma_rows_of_push(before_push, rows@[i as int], id@);
            }
        } else {
            proof {
                assert forall|x: Seq<char>| x != id@ implies #[trigger] rows_of(out@, x) == rows_of(
                    rows@.take(i + 1),
                    x,
                ) by {
                    lemma_rows_of_push(seen, rows@[i as int], x);
                }
            }
        }
        if mine {
            assert(h[c as int] == rows@[i as int]);
            c += 1;
        }
        i += 1;
    }
    proof {
        assert(rows@.take(i as int) =~= rows@);
        assert forall|k: int, l: int| 0 <= k < l < out@.len() implies earlier(
            #[trigger] out@[k],
            #[trigger] out@[l],
        ) by {
            assert(earlier(rows@[from[k]], rows@[from[l]]));
        }
        assert forall|k: int| 0 <= k < out@.len() implies rows@.contains(#[trigger] out@[k]) by {
            assert(out@[k] == rows@[from[k]]);
        }
    }
    out
}

} // verus!
