//! Tables whose rows belong to a model.
use crate::text::same_text;
use vstd::prelude::*;

verus! {

/// A row that belongs to a model.
pub trait OwnedRow: Sized {
    /// The id of the model that the row belongs to.
    spec fn owner(&self) -> Seq<char>;

    /// The id of the model that the row belongs to.
    fn owner_text(&self) -> (r: &str)
        ensures
            r@ == self.owner(),
    ;

    /// A copy of the row.
    fn copy_row(&self) -> (r: Self)
        ensures
            r == *self,
    ;
}

/// The rows of a model, in order.
pub open spec fn rows_of<R: OwnedRow>(rows: Seq<R>, id: Seq<char>) -> Seq<R>
    decreases rows.len(),
{
    if rows.len() == 0 {
        seq![]
    } else {
        let rest = rows_of(rows.drop_last(), id);
        if rows.last().owner() == id {
            rest.push(rows.last())
        } else {
            rest
        }
    }
}

/// The rows of all models but one, in order.
pub open spec fn rows_not_of<R: OwnedRow>(rows: Seq<R>, id: Seq<char>) -> Seq<R>
    decreases rows.len(),
{
    if rows.len() == 0 {
        seq![]
    } else {
        let rest = rows_not_of(rows.drop_last(), id);
        if rows.last().owner() == id {
            rest
        } else {
            rest.push(rows.last())
        }
    }
}

/// A row is among those of its model.
pub proof fn lemma_rows_of_members<R: OwnedRow>(rows: Seq<R>, id: Seq<char>)
    ensures
        forall|i: int|
            0 <= i < rows_of(rows, id).len() ==> (#[trigger] rows_of(rows, id)[i]).owner() == id
                && rows.contains(rows_of(rows, id)[i]),
        forall|i: int|
            0 <= i < rows.len() && (#[trigger] rows[i]).owner() == id ==> rows_of(
                rows,
                id,
            ).contains(rows[i]),
        rows_of(rows, id).len() <= rows.len(),
    decreases rows.len(),
{
    if rows.len() > 0 {
        let t = rows.drop_last();
        lemma_rows_of_members(t, id);
        let f = rows_of(rows, id);
        let g = rows_of(t, id);
        assert forall|i: int| 0 <= i < f.len() implies (#[trigger] f[i]).owner() == id
            && rows.contains(f[i]) by {
            if i < g.len() {
                assert(f[i] == g[i]);
                let k = choose|k: int| 0 <= k < t.len() && t[k] == g[i];
                assert(rows[k] == f[i]);
            } else {
                assert(rows[rows.len() - 1] == f[i]);
            }
        }
        assert forall|i: int| 0 <= i < rows.len() && (#[trigger] rows[i]).owner() == id implies f.contains(
            rows[i],
        ) by {
            if i < t.len() {
                assert(t[i] == rows[i]);
                let k = choose|k: int| 0 <= k < g.len() && g[k] == t[i];
                assert(f[k] == rows[i]);
            } else {
                assert(f[f.len() - 1] == rows[i]);
            }
        }
    }
}

/// Removing the rows of one model leaves those of the others.
pub proof fn law_removal_is_local<R: OwnedRow>(rows: Seq<R>, removed: Seq<char>, id: Seq<char>)
    ensures
        rows_of(rows_not_of(rows, removed), id) == if id == removed {
            Seq::<R>::empty()
        } else {
            rows_of(rows, id)
        },
    decreases rows.len(),
{
    if rows.len() > 0 {
        let t = rows.drop_last();
        law_removal_is_local(t, removed, id);
        if rows.last().owner() != removed {
            assert(rows_not_of(rows, removed).drop_last() =~= rows_not_of(t, removed));
        }
    }
}

/// Adding a row at the end extends the rows of its model alone.
pub proof fn lemma_rows_of_push<R: OwnedRow>(rows: Seq<R>, r: R, id: Seq<char>)
    ensures
        rows_of(rows.push(r), id) == if r.owner() == id {
            rows_of(rows, id).push(r)
        } else {
            rows_of(rows, id)
        },
{
    assert(rows.push(r).drop_last() =~= rows);
}

/// The rows of two lists one after the other.
pub proof fn lemma_rows_of_add<R: OwnedRow>(a: Seq<R>, b: Seq<R>, id: Seq<char>)
    ensures
        rows_of(a + b, id) == rows_of(a, id) + rows_of(b, id),
    decreases b.len(),
{
    if b.len() == 0 {
        assert(a + b =~= a);
        assert(rows_of(a, id) + rows_of(b, id) =~= rows_of(a, id));
    } else {
        assert((a + b).drop_last() =~= a + b.drop_last());
        lemma_rows_of_add(a, b.drop_last(), id);
        assert(rows_of(a + b, id) =~= rows_of(a, id) + rows_of(b, id));
    }
}

/// A copy of the rows of all models but one.
pub fn remove_rows<R: OwnedRow>(rows: &Vec<R>, id: &str) -> (r: Vec<R>)
    ensures
        r@ == rows_not_of(rows@, id@),
{
    let mut out: Vec<R> = Vec::new();
    let mut i: usize = 0;
    while i < rows.len()
        invariant
            i <= rows.len(),
            out@ == rows_not_of(rows@.take(i as int), id@),
        decreases rows.len() - i,
    {
        assert(rows@.take(i + 1).drop_last() =~= rows@.take(i as int));
        if !same_text(rows[i].owner_text(), id) {
            out.push(rows[i].copy_row());
        }
        i += 1;
    }
    assert(rows@.take(i as int) =~= rows@);
    out
}

/// A copy of the rows of one model, in order.
pub fn select_rows<R: OwnedRow>(rows: &Vec<R>, id: &str) -> (r: Vec<R>)
    ensures
        r@ == rows_of(rows@, id@),
{
    let mut out: Vec<R> = Vec::new();
    let mut i: usize = 0;
    while i < rows.len()
        invariant
            i <= rows.len(),
            out@ == rows_of(rows@.take(i as int), id@),
        decreases rows.len() - i,
    {
        assert(rows@.take(i + 1).drop_last() =~= rows@.take(i as int));
        if same_text(rows[i].owner_text(), id) {
            out.push(rows[i].copy_row());
        }
        i += 1;
    }
    assert(rows@.take(i as int) =~= rows@);
    out
}

/// Whether no two rows belong to the same model.
pub open spec fn one_row_each<R: OwnedRow>(rows: Seq<R>) -> bool {
    forall|i: int, j: int|
        0 <= i < j < rows.len() ==> (#[trigger] rows[i]).owner() != (#[trigger] rows[j]).owner()
}

/// The row of a model, in a table with at most one row for each.
pub open spec fn row_of<R: OwnedRow>(rows: Seq<R>, id: Seq<char>) -> Option<R> {
    let found = rows_of(rows, id);
    if found.len() == 0 {
        None
    } else {
        Some(found[0])
    }
}

proof fn lemma_not_of_one_row<R: OwnedRow>(rows: Seq<R>, id: Seq<char>)
    requires
        one_row_each(rows),
    ensures
        one_row_each(rows_not_of(rows, id)),
        forall|i: int|
            0 <= i < rows_not_of(rows, id).len() ==> (#[trigger] rows_not_of(rows, id)[i]).owner()
                != id && rows.contains(rows_not_of(rows, id)[i]),
    decreases rows.len(),
{
    if rows.len() > 0 {
        let t = rows.drop_last();
        assert(one_row_each(t)) by {
            assert forall|i: int, j: int| 0 <= i < j < t.len() implies (#[trigger] t[i]).owner() != (
            #[trigger] t[j]).owner() by {
                assert(rows[i].owner() != rows[j].owner());
            }
        }
        lemma_not_of_one_row(t, id);
        let f = rows_not_of(rows, id);
        let g = rows_not_of(t, id);
        assert forall|i: int| 0 <= i < f.len() implies (#[trigger] f[i]).owner() != id
            && rows.contains(f[i]) by {
            if i < g.len() {
                assert(f[i] == g[i]);
                let k = choose|k: int| 0 <= k < t.len() && t[k] == g[i];
                assert(rows[k] == f[i]);
            } else {
                assert(rows[rows.len() - 1] == f[i]);
            }
        }
        assert forall|i: int, j: int| 0 <= i < j < f.len() implies (#[trigger] f[i]).owner() != (
        #[trigger] f[j]).owner() by {
            if j < g.len() {
                assert(f[i] == g[i] && f[j] == g[j]);
            } else {
                assert(f[i] == g[i]);
                let k = choose|k: int| 0 <= k < t.len() && t[k] == g[i];
                assert(rows[k].owner() != rows[rows.len() - 1].owner());
            }
        }
    }
}

/// Puts the row of a model in place of the one it had, if any.
pub fn replace_row<R: OwnedRow>(rows: &Vec<R>, row: R, id: &str) -> (r: Vec<R>)
    requires
        one_row_each(rows@),
        row.owner() == id@,
    ensures
        one_row_each(r@),
        forall|other: Seq<char>|
            #[trigger] row_of(r@, other) == if other == id@ {
                Some(row)
            } else {
                row_of(rows@, other)
            },
{
    let mut out: Vec<R> = remove_rows(rows, id);
    let ghost kept = out@;
    out.push(row);
    proof {
        lemma_not_of_one_row(rows@, id@);
        assert(one_row_each(out@)) by {
            assert forall|i: int, j: int| 0 <= i < j < out@.len() implies (
            #[trigger] out@[i]).owner() != (#[trigger] out@[j]).owner() by {
                assert(out@[i] == kept[i]);
                if j < kept.len() {
                    assert(out@[j] == kept[j]);
                }
            }
        }
        assert forall|other: Seq<char>| #[trigger] row_of(out@, other) == if other == id@ {
            Some(row)
        } else {
            row_of(rows@, other)
        } by {
            lemma_rows_of_push(kept, row, other);
            law_removal_is_local(rows@, id@, other);
        }
    }
    out
}

/// Removing the rows of a model keeps one row for each of the others.
pub proof fn lemma_removal_keeps_rows<R: OwnedRow>(rows: Seq<R>, removed: Seq<char>)
    requires
        one_row_each(rows),
    ensures
        one_row_each(rows_not_of(rows, removed)),
        forall|other: Seq<char>|
            #[trigger] row_of(rows_not_of(rows, removed), other) == if other == removed {
                None
            } else {
                row_of(rows, other)
            },
{
    lemma_not_of_one_row(rows, removed);
    assert forall|other: Seq<char>|
        #[trigger] row_of(rows_not_of(rows, removed), other) == if other == removed {
            None
        } else {
            row_of(rows, other)
        } by {
        law_removal_is_local(rows, removed, other);
    }
}

/// A copy of the row of a model, in a table with at most one row for each.
pub fn find_row<R: OwnedRow>(rows: &Vec<R>, id: &str) -> (r: Option<R>)
    ensures
        r == row_of(rows@, id@),
{
    let found: Vec<R> = select_rows(rows, id);
    if found.len() == 0 {
        None
    } else {
        Some(found[0].copy_row())
    }
}

/// A row is the row of its model, in a table with at most one row for each.
pub proof fn lemma_row_of_index<R: OwnedRow>(rows: Seq<R>, i: int)
    requires
        one_row_each(rows),
        0 <= i < rows.len(),
    ensures
        row_of(rows, rows[i].owner()) == Some(rows[i]),
    decreases rows.len(),
{
    let id = rows[i].owner();
    let t = rows.drop_last();
    assert(one_row_each(t)) by {
        assert forall|a: int, b: int| 0 <= a < b < t.len() implies (#[trigger] t[a]).owner() != (
        #[trigger] t[b]).owner() by {
            assert(rows[a].owner() != rows[b].owner());
        }
    }
    if i == rows.len() - 1 {
        lemma_rows_of_members(t, id);
        if rows_of(t, id).len() > 0 {
            let r = rows_of(t, id)[0];
            let k = choose|k: int| 0 <= k < t.len() && t[k] == r;
            assert(rows[k].owner() != rows[i].owner());
        }
    } else {
        assert(t[i] == rows[i]);
        lemma_row_of_index(t, i);
    }
}

/// The row of a model stands in the table and belongs to the model.
pub proof fn lemma_row_of_member<R: OwnedRow>(rows: Seq<R>, id: Seq<char>)
    ensures
        row_of(rows, id) matches Some(r) ==> r.owner() == id && rows.contains(r),
        row_of(rows, id) is None ==> forall|i: int|
            0 <= i < rows.len() ==> (#[trigger] rows[i]).owner() != id,
{
    lemma_rows_of_members(rows, id);
    if rows_of(rows, id).len() > 0 {
        let r = rows_of(rows, id)[0];
        assert(r.owner() == id);
    }
}

/// Checks that no two rows belong to the same model.
pub fn check_one_row_each<R: OwnedRow>(rows: &Vec<R>) -> (r: bool)
    ensures
        r == one_row_each(rows@),
{
    let mut i: usize = 0;
    while i < rows.len()
        invariant
            i <= rows.len(),
            forall|a: int, b: int|
                0 <= a < i && a < b < rows@.len() ==> (#[trigger] rows@[a]).owner() != (
                #[trigger] rows@[b]).owner(),
        decreases rows.len() - i,
    {
        let mut j: usize = i + 1;
        while j < rows.len()
            invariant
                i < j <= rows.len(),
                forall|b: int|
                    i < b < j ==> rows@[i as int].owner() != (#[trigger] rows@[b]).owner(),
            decreases rows.len() - j,
        {
            if same_text(rows[i].owner_text(), rows[j].owner_text()) {
                assert(rows@[i as int].owner() == rows@[j as int].owner());
                return false;
            }
            j += 1;
        }
        i += 1;
    }
    true
}

/// The rows of a model are found wherever they stand, in order: those of two
/// tables one after the other are those of the one and then those of the other,
/// and a single row is its model's and nobody else's.
pub proof fn law_rows_are_found_in_order<R: OwnedRow>(a: Seq<R>, b: Seq<R>, r: R, id: Seq<char>)
    ensures
        rows_of(Seq::<R>::empty(), id) == Seq::<R>::empty(),
        rows_of(a + b, id) == rows_of(a, id) + rows_of(b, id),
        r.owner() == id ==> rows_of(seq![r], id) == seq![r],
        r.owner() != id ==> rows_of(seq![r], id) == Seq::<R>::empty(),
{
    lemma_rows_of_add(a, b, id);
    assert(seq![r].drop_last() =~= Seq::<R>::empty());
    assert(Seq::<R>::empty().push(r) =~= seq![r]);
}

/// In a table with at most one row for each model, a model's row is the one that
/// belongs to it, and there is none exactly where no row does.
pub proof fn law_row_of_a_model<R: OwnedRow>(rows: Seq<R>, id: Seq<char>, k: int)
    requires
        one_row_each(rows),
        0 <= k < rows.len(),
    ensures
        rows[k].owner() == id ==> row_of(rows, id) == Some(rows[k]),
        row_of(rows, id) is None ==> rows[k].owner() != id,
        row_of(rows, id) matches Some(r) ==> r.owner() == id && rows.contains(r),
        forall|i: int, j: int|
            0 <= i < j < rows.len() ==> (#[trigger] rows[i]).owner() != (#[trigger] rows[j]).owner(),
{
    lemma_rows_of_members(rows, id);
    let f = rows_of(rows, id);
    if f.len() > 0 {
        assert(f[0].owner() == id && rows.contains(f[0]));
        let j = choose|j: int| 0 <= j < rows.len() && rows[j] == f[0];
        if rows[k].owner() == id && j != k {
            if j < k {
                assert(rows[j].owner() != rows[k].owner());
            } else {
                assert(rows[k].owner() != rows[j].owner());
            }
        }
    } else if rows[k].owner() == id {
        assert(f.contains(rows[k]));
    }
}

} // verus!
