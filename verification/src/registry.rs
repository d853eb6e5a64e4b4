//! The model registry: which models there are, and what was measured of them.
use crate::error::fails_with;
use crate::error::ErrorView;
use crate::error::SmolError;
use crate::error::SmolResult;
use crate::eval::EvalReport;
use crate::json::json_list;
use crate::json::parsed_json_list;
use crate::json::read_json_list;
use crate::json::write_json_list;
use crate::paths::base_id_of;
use crate::paths::law_stripping_is_exact;
use crate::paths::strip_variant_suffix;
use crate::record::ModelRecord;
use crate::record::ModelView;
use crate::rows::CheckpointGridRecord;
use crate::rows::EvalGridRecord;
use crate::rows::EvalRecord;
use crate::rows::JacobianLensRecord;
use crate::rows::JacobianRow;
use crate::rows::TrainingRecord;
use crate::snapshots::extended;
use crate::snapshots::insert_snapshot;
use crate::snapshots::inserted;
use crate::snapshots::thin_rows;
use crate::table::check_one_row_each;
use crate::table::find_row;
use crate::table::law_removal_is_local;
use crate::table::law_row_of_a_model;
use crate::table::lemma_removal_keeps_rows;
use crate::table::lemma_row_of_index;
use crate::table::lemma_row_of_member;
use crate::table::one_row_each;
use crate::table::remove_rows;
use crate::table::replace_row;
use crate::table::row_of;
use crate::table::rows_not_of;
use crate::table::rows_of;
use crate::table::select_rows;
use crate::table::OwnedRow;
use crate::text::clone_opt;
use crate::text::less_text;
use crate::text::lemma_text_less_total;
use crate::text::lemma_text_less_trans;
use crate::text::opt_text;
use crate::text::same_text;
use crate::text::text_less;
use crate::text::texts;
use vstd::prelude::*;
use vstd::string::*;

verus! {

/// The most snapshots that are kept of a model's training.
pub const MAX_CHECKPOINT_GRIDS_PER_MODEL: usize = 300;

/// The registry. Rows that belong to a model go when it goes, except for the
/// history of its trainings.
pub struct Registry {
    pub models: Vec<ModelRecord>,
    pub evals: Vec<EvalRecord>,
    pub eval_grids: Vec<EvalGridRecord>,
    /// In the order of their epochs, and of their ids within an epoch.
    pub checkpoint_grids: Vec<CheckpointGridRecord>,
    pub jacobian_lens_results: Vec<JacobianRow>,
    pub trainings: Vec<TrainingRecord>,
    pub next_eval_id: i64,
    pub next_checkpoint_id: i64,
    pub next_training_id: i64,
}

/// Whether a snapshot comes before another: by epoch, then by id.
pub open spec fn earlier(a: CheckpointGridRecord, b: CheckpointGridRecord) -> bool {
    a.epoch < b.epoch || (a.epoch == b.epoch && a.id < b.id)
}

/// Whether each snapshot comes before those behind it.
pub open spec fn in_epoch_order(rows: Seq<CheckpointGridRecord>) -> bool {
    forall|i: int, j: int| 0 <= i < j < rows.len() ==> earlier(#[trigger] rows[i], #[trigger] rows[j])
}

/// Whether two trainings are of the same model and kind.
pub open spec fn same_training(a: TrainingRecord, model_id: Seq<char>, kind: Seq<char>) -> bool {
    a.model_id@ == model_id && a.kind@ == kind
}

impl Registry {
    /// The model with an id, if there is one.
    pub open spec fn model(&self, id: Seq<char>) -> Option<ModelView> {
        match row_of(self.models@, id) {
            Some(m) => Some(m@),
            None => None,
        }
    }

    /// Whether there is a model with an id.
    pub open spec fn registered(&self, id: Seq<char>) -> bool {
        row_of(self.models@, id) is Some
    }

    /// Ids and paths are unique.
    pub open spec fn models_distinct(&self) -> bool {
        &&& one_row_each(self.models@)
        &&& forall|i: int, j: int|
            0 <= i < j < self.models@.len() ==> (#[trigger] self.models@[i]).path@ != (
            #[trigger] self.models@[j]).path@
    }

    /// Evaluations have ascending ids.
    pub open spec fn evals_ordered(&self) -> bool {
        &&& forall|i: int, j: int|
            0 <= i < j < self.evals@.len() ==> (#[trigger] self.evals@[i]).id < (
            #[trigger] self.evals@[j]).id
        &&& forall|i: int|
            0 <= i < self.evals@.len() ==> (#[trigger] self.evals@[i]).id < self.next_eval_id
    }

    /// Snapshots are in order, and their ids are in use.
    pub open spec fn checkpoints_ordered(&self) -> bool {
        &&& in_epoch_order(self.checkpoint_grids@)
        &&& forall|i: int|
            0 <= i < self.checkpoint_grids@.len() ==> (#[trigger] self.checkpoint_grids@[i]).id
                < self.next_checkpoint_id
    }

    /// There is one training row for each model and kind, with an id of its own.
    pub open spec fn trainings_distinct(&self) -> bool {
        &&& forall|i: int, j: int|
            0 <= i < j < self.trainings@.len() ==> !same_training(
                #[trigger] self.trainings@[i],
                (#[trigger] self.trainings@[j]).model_id@,
                self.trainings@[j].kind@,
            )
        &&& forall|i: int, j: int|
            0 <= i < j < self.trainings@.len() ==> (#[trigger] self.trainings@[i]).id < (
            #[trigger] self.trainings@[j]).id
        &&& forall|i: int|
            0 <= i < self.trainings@.len() ==> (#[trigger] self.trainings@[i]).id
                < self.next_training_id
    }

    /// Grids, snapshots and analyses belong to registered models.
    pub open spec fn rows_have_models(&self) -> bool {
        &&& forall|i: int|
            0 <= i < self.eval_grids@.len() ==> self.registered(
                (#[trigger] self.eval_grids@[i]).owner(),
            )
        &&& forall|i: int|
            0 <= i < self.checkpoint_grids@.len() ==> self.registered(
                (#[trigger] self.checkpoint_grids@[i]).owner(),
            )
        &&& forall|i: int|
            0 <= i < self.jacobian_lens_results@.len() ==> self.registered(
                (#[trigger] self.jacobian_lens_results@[i]).owner(),
            )
    }

    /// What holds of every registry.
    pub open spec fn well_formed(&self) -> bool {
        &&& self.models_distinct()
        &&& self.evals_ordered()
        &&& one_row_each(self.eval_grids@)
        &&& self.checkpoints_ordered()
        &&& one_row_each(self.jacobian_lens_results@)
        &&& self.trainings_distinct()
        &&& self.rows_have_models()
    }

    /// An empty registry. Evaluations, snapshots and trainings are numbered from
    /// one.
    pub fn new() -> (r: Registry)
        ensures
            r.well_formed(),
            r.models@.len() == 0,
            r.evals@.len() == 0,
            r.eval_grids@.len() == 0,
            r.checkpoint_grids@.len() == 0,
            r.jacobian_lens_results@.len() == 0,
            r.trainings@.len() == 0,
            r.next_eval_id == 1,
            r.next_checkpoint_id == 1,
            r.next_training_id == 1,
    {
        Registry {
            models: Vec::new(),
            evals: Vec::new(),
            eval_grids: Vec::new(),
            checkpoint_grids: Vec::new(),
            jacobian_lens_results: Vec::new(),
            trainings: Vec::new(),
            next_eval_id: 1,
            next_checkpoint_id: 1,
            next_training_id: 1,
        }
    }

    /// Whether there is no model.
    pub fn is_empty(&self) -> (r: bool)
        ensures
            r == (self.models@.len() == 0),
            r ==> forall|id: Seq<char>| !#[trigger] self.registered(id),
    {
        proof {
            if self.models@.len() == 0 {
                assert forall|id: Seq<char>| !#[trigger] self.registered(id) by {}
            }
        }
        self.models.len() == 0
    }

    /// The model with an id, if there is one.
    pub fn get_model(&self, id: &str) -> (r: Option<ModelRecord>)
        ensures
            r == row_of(self.models@, id@),
            match r {
                Some(m) => self.model(id@) == Some(m@) && m.id@ == id@,
                None => self.model(id@) is None,
            },
    {
        proof {
            lemma_row_of_member(self.models@, id@);
        }
        find_row(&self.models, id)
    }

    /// All models, in the order of their ids.
    pub fn list_models(&self) -> (r: Vec<ModelRecord>)
        requires
            self.well_formed(),
        ensures
            sorted_by_id(r@),
            r@.len() == self.models@.len(),
            forall|i: int|
                0 <= i < r@.len() ==> row_of(self.models@, (#[trigger] r@[i]).id@) == Some(r@[i]),
            forall|id: Seq<char>|
                #[trigger] self.registered(id) ==> exists|i: int|
                    0 <= i < r@.len() && #[trigger] r@[i].id@ == id,
    {
        broadcast use vstd::seq_lib::group_to_multiset_ensures;

        let mut out: Vec<ModelRecord> = Vec::new();
        let mut i: usize = 0;
        while i < self.models.len()
            invariant
                i <= self.models.len(),
                self.models_distinct(),
                sorted_by_id(out@),
                out@.to_multiset() =~= self.models@.take(i as int).to_multiset(),
            decreases self.models.len() - i,
        {
            broadcast use vstd::seq_lib::group_to_multiset_ensures;

            let ghost seen = self.models@.take(i as int);
            let m: ModelRecord = self.models[i].copy_row();
            proof {
                assert forall|a: int| 0 <= a < out@.len() implies (#[trigger] out@[a]).id@ != m.id@ by {
                    assert(out@.contains(out@[a]));
                    assert(out@.to_multiset().count(out@[a]) > 0);
                    assert(seen.contains(out@[a]));
                    let k = choose|k: int| 0 <= k < seen.len() && seen[k] == out@[a];
                    assert(self.models@[k].owner() != self.models@[i as int].owner());
                }
            }
            insert_by_id(&mut out, m);
            proof {
                assert(self.models@.take(i + 1) =~= seen.push(self.models@[i as int]));
            }
            i += 1;
        }
        proof {
            assert(self.models@.take(i as int) =~= self.models@);
            assert(out@.len() == self.models@.len()) by {
                assert(out@.to_multiset().len() == out@.len());
                assert(self.models@.to_multiset().len() == self.models@.len());
            }
            assert forall|a: int| 0 <= a < out@.len() implies row_of(
                self.models@,
                (#[trigger] out@[a]).id@,
            ) == Some(out@[a]) by {
                assert(out@.contains(out@[a]));
                assert(out@.to_multiset().count(out@[a]) > 0);
                assert(self.models@.contains(out@[a]));
                let k = choose|k: int| 0 <= k < self.models@.len() && self.models@[k] == out@[a];
                lemma_row_of_index(self.models@, k);
            }
            assert forall|id: Seq<char>| #[trigger] self.registered(id) implies exists|a: int|
                0 <= a < out@.len() && #[trigger] out@[a].id@ == id by {
                lemma_row_of_member(self.models@, id);
                let m = row_of(self.models@, id)->0;
                assert(self.models@.contains(m));
                assert(self.models@.to_multiset().count(m) > 0);
                assert(out@.contains(m));
                let a = choose|a: int| 0 <= a < out@.len() && out@[a] == m;
                assert(out@[a].id@ == id);
            }
        }
        out
    }
}

/// Whether the ids of the records ascend.
pub open spec fn sorted_by_id(rows: Seq<ModelRecord>) -> bool {
    forall|a: int, b: int|
        0 <= a < b < rows.len() ==> text_less((#[trigger] rows[a]).id@, (#[trigger] rows[b]).id@)
}

/// Puts a record in its place among others with ascending ids.
fn insert_by_id(rows: &mut Vec<ModelRecord>, m: ModelRecord)
    requires
        sorted_by_id(old(rows)@),
        forall|a: int| 0 <= a < old(rows)@.len() ==> (#[trigger] old(rows)@[a]).id@ != m.id@,
    ensures
        sorted_by_id(final(rows)@),
        final(rows)@.to_multiset() =~= old(rows)@.to_multiset().insert(m),
{
    broadcast use vstd::seq_lib::group_to_multiset_ensures;

    let mut j: usize = 0;
    while j < rows.len() && less_text(rows[j].id.as_str(), m.id.as_str())
        invariant
            j <= rows.len(),
            rows@ == old(rows)@,
            forall|a: int| 0 <= a < j ==> text_less((#[trigger] rows@[a]).id@, m.id@),
        decreases rows.len() - j,
    {
        j += 1;
    }
    proof {
        if j < rows.len() {
            lemma_text_less_total(rows@[j as int].id@, m.id@);
        }
        lemma_insert_sorted(rows@, j as int, m);
    }
    rows.insert(j, m);
    proof {
        vstd::seq_lib::to_multiset_insert(old(rows)@, j as int, m);
    }
}

/// Inserting a record behind those with smaller ids and before the others keeps
/// the order.
proof fn lemma_insert_sorted(rows: Seq<ModelRecord>, j: int, m: ModelRecord)
    requires
        0 <= j <= rows.len(),
        sorted_by_id(rows),
        forall|a: int| 0 <= a < j ==> text_less((#[trigger] rows[a]).id@, m.id@),
        j < rows.len() ==> text_less(m.id@, rows[j].id@),
    ensures
        sorted_by_id(rows.insert(j, m)),
{
    let out = rows.insert(j, m);
    assert forall|a: int, b: int| 0 <= a < b < out.len() implies text_less(
        (#[trigger] out[a]).id@,
        (#[trigger] out[b]).id@,
    ) by {
        let old_b = if b < j {
            b
        } else {
            b - 1
        };
        if a == j {
            assert(out[b] == rows[b - 1]);
            if b - 1 > j {
                lemma_text_less_trans(m.id@, rows[j].id@, rows[b - 1].id@);
            }
        } else if b == j {
            assert(out[a] == rows[a]);
        } else {
            let old_a = if a < j {
                a
            } else {
                a - 1
            };
            assert(out[a] == rows[old_a]);
            assert(out[b] == rows[old_b]);
        }
    }
}

/// What registering `rec` makes of a model with the same id that was there
/// before: everything is replaced but the time of creation.
pub open spec fn updated_model(before: Option<ModelView>, rec: ModelView) -> ModelView {
    match before {
        Some(m) => ModelView { created_at: m.created_at, ..rec },
        None => rec,
    }
}

impl Registry {
    /// Whether registering a model with the id `id` and the path `path` takes
    /// the place of the model `other`: the same path under another id.
    pub open spec fn displaced(&self, id: Seq<char>, path: Seq<char>, other: Seq<char>) -> bool {
        other != id && (self.model(other) matches Some(m) && m.path == path)
    }

    /// Whether nothing but the models differs.
    pub open spec fn same_rows(&self, before: &Registry) -> bool {
        &&& self.evals == before.evals
        &&& self.eval_grids == before.eval_grids
        &&& self.checkpoint_grids == before.checkpoint_grids
        &&& self.jacobian_lens_results == before.jacobian_lens_results
        &&& self.trainings == before.trainings
        &&& self.next_eval_id == before.next_eval_id
        &&& self.next_checkpoint_id == before.next_checkpoint_id
        &&& self.next_training_id == before.next_training_id
    }

    /// What is kept of a registry when a model `id` is registered at `path`:
    /// the rows of a model that it displaces go, and so does the analysis of
    /// the model itself, which was one of other weights. All other rows stay,
    /// all trainings do, and ids go on where they were.
    pub open spec fn rows_after_registering(
        &self,
        before: &Registry,
        id: Seq<char>,
        path: Seq<char>,
    ) -> bool {
        &&& forall|x: Seq<char>|
            #[trigger] rows_of(self.evals@, x) == if before.displaced(id, path, x) {
                Seq::empty()
            } else {
                rows_of(before.evals@, x)
            }
        &&& forall|x: Seq<char>|
            #[trigger] row_of(self.eval_grids@, x) == if before.displaced(id, path, x) {
                None
            } else {
                row_of(before.eval_grids@, x)
            }
        &&& forall|x: Seq<char>|
            #[trigger] rows_of(self.checkpoint_grids@, x) == if before.displaced(id, path, x) {
                Seq::empty()
            } else {
                rows_of(before.checkpoint_grids@, x)
            }
        &&& forall|x: Seq<char>|
            #[trigger] row_of(self.jacobian_lens_results@, x) == if x == id || before.displaced(
                id,
                path,
                x,
            ) {
                None
            } else {
                row_of(before.jacobian_lens_results@, x)
            }
        &&& self.trainings == before.trainings
        &&& self.next_eval_id == before.next_eval_id
        &&& self.next_checkpoint_id == before.next_checkpoint_id
        &&& self.next_training_id == before.next_training_id
    }

    /// Removes the analysis of a model.
    fn forget_analysis(&mut self, id: &str)
        requires
            old(self).well_formed(),
        ensures
            final(self).well_formed(),
            final(self).models == old(self).models,
            final(self).evals == old(self).evals,
            final(self).eval_grids == old(self).eval_grids,
            final(self).checkpoint_grids == old(self).checkpoint_grids,
            forall|x: Seq<char>|
                #[trigger] row_of(final(self).jacobian_lens_results@, x) == if x == id@ {
                    None
                } else {
                    row_of(old(self).jacobian_lens_results@, x)
                },
            final(self).trainings == old(self).trainings,
            final(self).next_eval_id == old(self).next_eval_id,
            final(self).next_checkpoint_id == old(self).next_checkpoint_id,
            final(self).next_training_id == old(self).next_training_id,
    {
        self.jacobian_lens_results = remove_rows(&self.jacobian_lens_results, id);
        proof {
            let o = old(self);
            lemma_removal_keeps_rows(o.jacobian_lens_results@, id@);
            let l = lemma_kept_indices(o.jacobian_lens_results@, id@);
            assert forall|i: int| 0 <= i < self.jacobian_lens_results@.len() implies self.registered(
                (#[trigger] self.jacobian_lens_results@[i]).owner(),
            ) by {
                assert(o.registered(o.jacobian_lens_results@[l[i]].owner()));
            }
            assert forall|i: int| 0 <= i < self.checkpoint_grids@.len() implies self.registered(
                (#[trigger] self.checkpoint_grids@[i]).owner(),
            ) by {
                assert(o.registered(o.checkpoint_grids@[i].owner()));
            }
            assert forall|i: int| 0 <= i < self.eval_grids@.len() implies self.registered(
                (#[trigger] self.eval_grids@[i]).owner(),
            ) by {
                assert(o.registered(o.eval_grids@[i].owner()));
            }
        }
    }

    /// Removes a model and what belongs to it, except for its trainings.
    fn drop_model(&mut self, id: &str)
        requires
            old(self).well_formed(),
        ensures
            final(self).well_formed(),
            forall|x: Seq<char>|
                #[trigger] row_of(final(self).models@, x) == if x == id@ {
                    None
                } else {
                    row_of(old(self).models@, x)
                },
            forall|x: Seq<char>|
                #[trigger] rows_of(final(self).evals@, x) == if x == id@ {
                    Seq::empty()
                } else {
                    rows_of(old(self).evals@, x)
                },
            forall|x: Seq<char>|
                #[trigger] row_of(final(self).eval_grids@, x) == if x == id@ {
                    None
                } else {
                    row_of(old(self).eval_grids@, x)
                },
            forall|x: Seq<char>|
                #[trigger] rows_of(final(self).checkpoint_grids@, x) == if x == id@ {
                    Seq::empty()
                } else {
                    rows_of(old(self).checkpoint_grids@, x)
                },
            forall|x: Seq<char>|
                #[trigger] row_of(final(self).jacobian_lens_results@, x) == if x == id@ {
                    None
                } else {
                    row_of(old(self).jacobian_lens_results@, x)
                },
            final(self).trainings == old(self).trainings,
            final(self).next_eval_id == old(self).next_eval_id,
            final(self).next_checkpoint_id == old(self).next_checkpoint_id,
            final(self).next_training_id == old(self).next_training_id,
    {
        self.models = remove_rows(&self.models, id);
        self.evals = remove_rows(&self.evals, id);
        self.eval_grids = remove_rows(&self.eval_grids, id);
        self.checkpoint_grids = remove_rows(&self.checkpoint_grids, id);
        self.jacobian_lens_results = remove_rows(&self.jacobian_lens_results, id);
        proof {
            let o = old(self);
            lemma_removal_keeps_rows(o.models@, id@);
            lemma_removal_keeps_rows(o.eval_grids@, id@);
            lemma_removal_keeps_rows(o.jacobian_lens_results@, id@);
            assert forall|x: Seq<char>| #[trigger] rows_of(self.evals@, x) == if x == id@ {
                Seq::empty()
            } else {
                rows_of(o.evals@, x)
            } by {
                law_removal_is_local(o.evals@, id@, x);
            }
            assert forall|x: Seq<char>| #[trigger] rows_of(self.checkpoint_grids@, x) == if x
                == id@ {
                Seq::empty()
            } else {
                rows_of(o.checkpoint_grids@, x)
            } by {
                law_removal_is_local(o.checkpoint_grids@, id@, x);
            }
            let m = lemma_kept_indices(o.models@, id@);
            assert forall|i: int, j: int| 0 <= i < j < self.models@.len() implies (
            #[trigger] self.models@[i]).path@ != (#[trigger] self.models@[j]).path@ by {
                assert(o.models@[m[i]].path@ != o.models@[m[j]].path@);
            }
            let e = lemma_kept_indices(o.evals@, id@);
            assert forall|i: int, j: int| 0 <= i < j < self.evals@.len() implies (
            #[trigger] self.evals@[i]).id < (#[trigger] self.evals@[j]).id by {
                assert(o.evals@[e[i]].id < o.evals@[e[j]].id);
            }
            assert forall|i: int| 0 <= i < self.evals@.len() implies (
            #[trigger] self.evals@[i]).id < self.next_eval_id by {
                assert(o.evals@[e[i]].id < o.next_eval_id);
            }
            let c = lemma_kept_indices(o.checkpoint_grids@, id@);
            assert forall|i: int, j: int| 0 <= i < j < self.checkpoint_grids@.len() implies earlier(
                #[trigger] self.checkpoint_grids@[i],
                #[trigger] self.checkpoint_grids@[j],
            ) by {
                assert(earlier(o.checkpoint_grids@[c[i]], o.checkpoint_grids@[c[j]]));
            }
            assert forall|i: int| 0 <= i < self.checkpoint_grids@.len() implies (
            #[trigger] self.checkpoint_grids@[i]).id < self.next_checkpoint_id by {
                assert(o.checkpoint_grids@[c[i]].id < o.next_checkpoint_id);
            }
            assert forall|i: int| 0 <= i < self.checkpoint_grids@.len() implies self.registered(
                (#[trigger] self.checkpoint_grids@[i]).owner(),
            ) by {
                assert(o.registered(o.checkpoint_grids@[c[i]].owner()));
            }
            let g = lemma_kept_indices(o.eval_grids@, id@);
            assert forall|i: int| 0 <= i < self.eval_grids@.len() implies self.registered(
                (#[trigger] self.eval_grids@[i]).owner(),
            ) by {
                assert(o.registered(o.eval_grids@[g[i]].owner()));
            }
            let l = lemma_kept_indices(o.jacobian_lens_results@, id@);
            assert forall|i: int| 0 <= i < self.jacobian_lens_results@.len() implies self.registered(
                (#[trigger] self.jacobian_lens_results@[i]).owner(),
            ) by {
                assert(o.registered(o.jacobian_lens_results@[l[i]].owner()));
            }
        }
    }

    /// Puts a model in place of the one with the same id, if any.
    fn put_model(&mut self, rec: ModelRecord)
        requires
            old(self).well_formed(),
            forall|x: Seq<char>| !#[trigger] old(self).displaced(rec.id@, rec.path@, x),
        ensures
            final(self).well_formed(),
            final(self).same_rows(old(self)),
            forall|x: Seq<char>|
                #[trigger] row_of(final(self).models@, x) == if x == rec.id@ {
                    Some(rec)
                } else {
                    row_of(old(self).models@, x)
                },
    {
        let id: String = rec.id.clone();
        self.models = replace_row(&self.models, rec, id.as_str());
        proof {
            let o = old(self);
            assert forall|i: int, j: int| 0 <= i < j < self.models@.len() implies (
            #[trigger] self.models@[i]).path@ != (#[trigger] self.models@[j]).path@ by {
                let a = self.models@[i];
                let b = self.models@[j];
                lemma_row_of_index(self.models@, i);
                lemma_row_of_index(self.models@, j);
                assert(a.owner() != b.owner());
                if a.owner() == rec.id@ {
                    assert(row_of(o.models@, b.owner()) == Some(b));
                    assert(!o.displaced(rec.id@, rec.path@, b.owner()));
                } else if b.owner() == rec.id@ {
                    assert(row_of(o.models@, a.owner()) == Some(a));
                    assert(!o.displaced(rec.id@, rec.path@, a.owner()));
                } else {
                    assert(row_of(o.models@, a.owner()) == Some(a));
                    assert(row_of(o.models@, b.owner()) == Some(b));
                    lemma_row_of_member(o.models@, a.owner());
                    lemma_row_of_member(o.models@, b.owner());
                    let p = choose|p: int| 0 <= p < o.models@.len() && o.models@[p] == a;
                    let q = choose|q: int| 0 <= q < o.models@.len() && o.models@[q] == b;
                    if p < q {
                        assert(o.models@[p].path@ != o.models@[q].path@);
                    } else {
                        assert(o.models@[q].path@ != o.models@[p].path@);
                    }
                }
            }
        }
    }

    /// The id of the model that holds `path` under another id, if there is one.
    fn find_displaced(&self, id: &str, path: &str) -> (r: Option<String>)
        requires
            self.well_formed(),
        ensures
            match r {
                Some(d) => self.displaced(id@, path@, d@) && forall|x: Seq<char>|
                    #[trigger] self.displaced(id@, path@, x) ==> x == d@,
                None => forall|x: Seq<char>| !#[trigger] self.displaced(id@, path@, x),
            },
    {
        let mut i: usize = 0;
        while i < self.models.len()
            invariant
                i <= self.models.len(),
                self.well_formed(),
                forall|k: int|
                    0 <= k < i ==> (#[trigger] self.models@[k]).path@ != path@
                        || self.models@[k].id@ == id@,
            decreases self.models.len() - i,
        {
            if same_text(self.models[i].path.as_str(), path) && !same_text(
                self.models[i].id.as_str(),
                id,
            ) {
                proof {
                    lemma_row_of_index(self.models@, i as int);
                    assert forall|x: Seq<char>| #[trigger] self.displaced(id@, path@, x) implies x
                        == self.models@[i as int].id@ by {
                        lemma_row_of_member(self.models@, x);
                        let m = row_of(self.models@, x)->0;
                        let k = choose|k: int| 0 <= k < self.models@.len() && self.models@[k] == m;
                        if k < i {
                            assert(self.models@[k].path@ != self.models@[i as int].path@);
                        } else if k > i {
                            assert(self.models@[i as int].path@ != self.models@[k].path@);
                        }
                    }
                }
                return Some(self.models[i].id.clone());
            }
            i += 1;
        }
        proof {
            assert forall|x: Seq<char>| !#[trigger] self.displaced(id@, path@, x) by {
                if self.displaced(id@, path@, x) {
                    lemma_row_of_member(self.models@, x);
                    let m = row_of(self.models@, x)->0;
                    let k = choose|k: int| 0 <= k < self.models@.len() && self.models@[k] == m;
                    assert(self.models@[k].path@ == path@);
                }
            }
        }
        None
    }

    /// Registers a model. One with the same id is updated in place: it keeps
    /// its evaluations, grid and snapshots and the time of its creation, but
    /// not the analysis of the weights it had. One with the same path under
    /// another id is removed, and what belongs to it.
    pub fn register_model(&mut self, rec: &ModelRecord)
        requires
            old(self).well_formed(),
        ensures
            final(self).well_formed(),
            forall|x: Seq<char>|
                #[trigger] final(self).model(x) == if x == rec.id@ {
                    Some(updated_model(old(self).model(x), rec@))
                } else if old(self).displaced(rec.id@, rec.path@, x) {
                    None
                } else {
                    old(self).model(x)
                },
            final(self).rows_after_registering(old(self), rec.id@, rec.path@),
            row_of(final(self).jacobian_lens_results@, rec.id@) is None,
    {
        let found: Option<String> = self.find_displaced(rec.id.as_str(), rec.path.as_str());
        if let Some(d) = &found {
            self.drop_model(d.as_str());
            proof {
                let o = old(self);
                assert forall|x: Seq<char>| !#[trigger] self.displaced(rec.id@, rec.path@, x) by {
                    if self.displaced(rec.id@, rec.path@, x) {
                        assert(row_of(self.models@, x) == row_of(o.models@, x));
                        assert(o.displaced(rec.id@, rec.path@, x));
                    }
                }
                assert forall|x: Seq<char>| (x == d@) == #[trigger] o.displaced(
                    rec.id@,
                    rec.path@,
                    x,
                ) by {}
            }
        }
        let ghost mid = *self;
        proof {
            let o = old(self);
            assert forall|x: Seq<char>| #[trigger] mid.model(x) == if o.displaced(
                rec.id@,
                rec.path@,
                x,
            ) {
                None
            } else {
                o.model(x)
            } by {
                assert(row_of(mid.models@, x) == row_of(mid.models@, x));
            }
        }
        let mut new: ModelRecord = rec.copy_row();
        if let Some(m) = find_row(&self.models, rec.id.as_str()) {
            new.created_at = m.created_at;
        }
        self.put_model(new);
        self.forget_analysis(rec.id.as_str());
        proof {
            assert forall|x: Seq<char>| #[trigger] self.model(x) == if x == rec.id@ {
                Some(updated_model(old(self).model(x), rec@))
            } else if old(self).displaced(rec.id@, rec.path@, x) {
                None
            } else {
                old(self).model(x)
            } by {
                assert(row_of(self.models@, x) == row_of(self.models@, x));
                assert(mid.model(x) == if old(self).displaced(rec.id@, rec.path@, x) {
                    None
                } else {
                    old(self).model(x)
                });
            }
        }
    }
}

/// Where the rows that are kept stood before.
proof fn lemma_kept_indices<R: OwnedRow>(rows: Seq<R>, id: Seq<char>) -> (m: Seq<int>)
    ensures
        m.len() == rows_not_of(rows, id).len(),
        forall|i: int|
            0 <= i < m.len() ==> 0 <= #[trigger] m[i] < rows.len() && rows_not_of(rows, id)[i]
                == rows[m[i]] && rows[m[i]].owner() != id,
        forall|i: int, j: int| 0 <= i < j < m.len() ==> #[trigger] m[i] < #[trigger] m[j],
    decreases rows.len(),
{
    if rows.len() == 0 {
        Seq::empty()
    } else {
        let t = rows.drop_last();
        let m = lemma_kept_indices(t, id);
        if rows.last().owner() == id {
            m
        } else {
            m.push(rows.len() - 1)
        }
    }
}

/// Whether an evaluation counts for a model whose operand range is `range`: one
/// without a range always does, another one only for the same range.
pub open spec fn range_matches(e: EvalRecord, range: Option<(i64, i64)>) -> bool {
    match (e.eval_min, e.eval_max) {
        (None, None) => true,
        (Some(lo), Some(hi)) => range == Some((lo, hi)),
        _ => false,
    }
}

/// Whether `a` is no newer than `b`: by time, then by id.
pub open spec fn no_newer(a: EvalRecord, b: EvalRecord) -> bool {
    a.run_at < b.run_at || (a.run_at == b.run_at && a.id <= b.id)
}

/// Whether an evaluation counts: always without a filter, otherwise for the
/// range that the filter gives.
pub open spec fn counts(e: EvalRecord, filter: Option<Option<(i64, i64)>>) -> bool {
    match filter {
        None => true,
        Some(range) => range_matches(e, range),
    }
}

/// Whether `r` is the newest of the evaluations of `rows` that count, or `None`
/// where none counts.
pub open spec fn is_newest(
    rows: Seq<EvalRecord>,
    filter: Option<Option<(i64, i64)>>,
    r: Option<EvalRecord>,
) -> bool {
    match r {
        Some(e) => {
            &&& rows.contains(e)
            &&& counts(e, filter)
            &&& forall|i: int|
                0 <= i < rows.len() && counts(#[trigger] rows[i], filter) ==> no_newer(rows[i], e)
        },
        None => forall|i: int| 0 <= i < rows.len() ==> !counts(#[trigger] rows[i], filter),
    }
}

fn newest_of(rows: &Vec<EvalRecord>, filter: Option<Option<(i64, i64)>>) -> (r: Option<EvalRecord>)
    ensures
        is_newest(rows@, filter, r),
{
    let mut best: Option<usize> = None;
    let mut i: usize = 0;
    while i < rows.len()
        invariant
            i <= rows.len(),
            match best {
                Some(b) => b < i && counts(rows@[b as int], filter) && forall|k: int|
                    0 <= k < i && counts(#[trigger] rows@[k], filter) ==> no_newer(
                        rows@[k],
                        rows@[b as int],
                    ),
                None => forall|k: int| 0 <= k < i ==> !counts(#[trigger] rows@[k], filter),
            },
        decreases rows.len() - i,
    {
        let e: &EvalRecord = &rows[i];
        let ok: bool = match filter {
            None => true,
            Some(range) => match (e.eval_min, e.eval_max) {
                (None, None) => true,
                (Some(lo), Some(hi)) => match range {
                    Some((a, b)) => a == lo && b == hi,
                    None => false,
                },
                _ => false,
            },
        };
        if ok {
            match best {
                None => {
                    best = Some(i);
                },
                Some(b) => {
                    if rows[b].run_at < e.run_at || (rows[b].run_at == e.run_at && rows[b].id
                        <= e.id) {
                        best = Some(i);
                    }
                },
            }
        }
        i += 1;
    }
    match best {
        Some(b) => {
            assert(rows@[b as int] == rows@[b as int]);
            Some(rows[b].copy_row())
        },
        None => None,
    }
}

/// What an evaluation row holds of a report.
pub open spec fn row_holds(
    e: EvalRecord,
    model_id: Seq<char>,
    report: EvalReport,
    seed: Option<u64>,
    range: Option<(i64, i64)>,
    now: i64,
) -> bool {
    &&& e.model_id@ == model_id
    &&& e.correct == report.correct as i64
    &&& e.total == report.total as i64
    &&& e.correct_plus == report.correct_plus as i64
    &&& e.total_plus == report.total_plus as i64
    &&& e.correct_minus == report.correct_minus as i64
    &&& e.total_minus == report.total_minus as i64
    &&& e.seed == (match seed {
        Some(s) => Some(s as i64),
        None => None,
    })
    &&& match range {
        Some((lo, hi)) => e.eval_min == Some(lo) && e.eval_max == Some(hi),
        None => e.eval_min is None && e.eval_max is None,
    }
    &&& e.run_at == now
}

impl Registry {
    /// The operand range of a model, if it is registered.
    pub open spec fn range_of(&self, id: Seq<char>) -> Option<(i64, i64)> {
        match row_of(self.models@, id) {
            Some(m) => Some((m.eval_min, m.eval_max)),
            None => None,
        }
    }

    fn find_range(&self, id: &str) -> (r: Option<(i64, i64)>)
        ensures
            r == self.range_of(id@),
    {
        match find_row(&self.models, id) {
            Some(m) => Some((m.eval_min, m.eval_max)),
            None => None,
        }
    }

    /// Adds the summary of an evaluation at the time `now`. It bears the
    /// operand range that the model has now, or none where the model is not
    /// registered.
    pub fn record_eval(
        &mut self,
        model_id: &str,
        report: &EvalReport,
        seed: Option<u64>,
        now: i64,
    )
        requires
            old(self).well_formed(),
            old(self).next_eval_id < i64::MAX,
        ensures
            final(self).well_formed(),
            final(self).models == old(self).models,
            final(self).eval_grids == old(self).eval_grids,
            final(self).checkpoint_grids == old(self).checkpoint_grids,
            final(self).jacobian_lens_results == old(self).jacobian_lens_results,
            final(self).trainings == old(self).trainings,
            final(self).evals@.len() == old(self).evals@.len() + 1,
            final(self).evals@.drop_last() == old(self).evals@,
            row_holds(
                final(self).evals@.last(),
                model_id@,
                *report,
                seed,
                old(self).range_of(model_id@),
                now,
            ),
            final(self).evals@.last().id == old(self).next_eval_id,
            final(self).next_eval_id == old(self).next_eval_id + 1,
            final(self).next_checkpoint_id == old(self).next_checkpoint_id,
            final(self).next_training_id == old(self).next_training_id,
    {
        let range: Option<(i64, i64)> = self.find_range(model_id);
        #[verifier::truncate]
        let correct: i64 = report.correct as i64;
        #[verifier::truncate]
        let total: i64 = report.total as i64;
        #[verifier::truncate]
        let correct_plus: i64 = report.correct_plus as i64;
        #[verifier::truncate]
        let total_plus: i64 = report.total_plus as i64;
        #[verifier::truncate]
        let correct_minus: i64 = report.correct_minus as i64;
        #[verifier::truncate]
        let total_minus: i64 = report.total_minus as i64;
        let row: EvalRecord = EvalRecord {
            id: self.next_eval_id,
            model_id: model_id.to_owned(),
            correct,
            total,
            correct_plus,
            total_plus,
            correct_minus,
            total_minus,
            seed: match seed {
                Some(s) => {
                    #[verifier::truncate]
                    let stored: i64 = s as i64;
                    Some(stored)
                },
                None => None,
            },
            eval_min: match range {
                Some((lo, _hi)) => Some(lo),
                None => None,
            },
            eval_max: match range {
                Some((_lo, hi)) => Some(hi),
                None => None,
            },
            run_at: now,
        };
        self.evals.push(row);
        self.next_eval_id = self.next_eval_id + 1;
        proof {
            let o = old(self).evals@;
            assert(self.evals@.drop_last() =~= o);
            assert forall|i: int, j: int| 0 <= i < j < self.evals@.len() implies (
            #[trigger] self.evals@[i]).id < (#[trigger] self.evals@[j]).id by {
                assert(self.evals@[i] == o[i]);
                if j < o.len() {
                    assert(self.evals@[j] == o[j]);
                }
            }
            assert forall|i: int| 0 <= i < self.evals@.len() implies (
            #[trigger] self.evals@[i]).id < self.next_eval_id by {
                if i < o.len() {
                    assert(self.evals@[i] == o[i]);
                }
            }
        }
    }

    /// The newest evaluation of a model that counts for its current operand
    /// range: one of the same range, or one without a range.
    pub fn latest_eval(&self, model_id: &str) -> (r: Option<EvalRecord>)
        ensures
            is_newest(rows_of(self.evals@, model_id@), Some(self.range_of(model_id@)), r),
    {
        let rows: Vec<EvalRecord> = select_rows(&self.evals, model_id);
        newest_of(&rows, Some(self.find_range(model_id)))
    }

    /// The newest evaluation of a model, of whatever range.
    pub fn latest_eval_legacy(&self, model_id: &str) -> (r: Option<EvalRecord>)
        ensures
            is_newest(rows_of(self.evals@, model_id@), None, r),
    {
        let rows: Vec<EvalRecord> = select_rows(&self.evals, model_id);
        newest_of(&rows, None)
    }
}

/// An evaluation that is recorded no earlier than the others is the newest one
/// from then on, as long as the operand range of its model stays.
pub proof fn law_recorded_eval_is_latest(
    rows: Seq<EvalRecord>,
    e: EvalRecord,
    filter: Option<Option<(i64, i64)>>,
    r: Option<EvalRecord>,
)
    requires
        counts(e, filter),
        forall|i: int|
            0 <= i < rows.len() ==> (#[trigger] rows[i]).run_at <= e.run_at && rows[i].id < e.id,
        is_newest(rows.push(e), filter, r),
    ensures
        r == Some(e),
{
    let all = rows.push(e);
    assert(all[rows.len() as int] == e);
    match r {
        Some(x) => {
            let k = choose|k: int| 0 <= k < all.len() && all[k] == x;
            assert(no_newer(all[rows.len() as int], x));
            if k < rows.len() {
                assert(all[k] == rows[k]);
            }
        },
        None => {},
    }
}

/// A change of the operand range hides the evaluations of the old one.
pub proof fn law_range_change_hides_evals(
    rows: Seq<EvalRecord>,
    range: (i64, i64),
    r: Option<EvalRecord>,
)
    requires
        forall|i: int|
            0 <= i < rows.len() ==> (#[trigger] rows[i]).eval_min is Some && rows[i].eval_max is Some
                && (rows[i].eval_min, rows[i].eval_max) != (Some(range.0), Some(range.1)),
        is_newest(rows, Some(Some(range)), r),
    ensures
        r is None,
{
    if let Some(e) = r {
        let k = choose|k: int| 0 <= k < rows.len() && rows[k] == e;
        assert(rows[k].eval_min is Some);
    }
}

/// What is said of a row for a model that is not registered.
pub open spec fn unregistered_error(what: Seq<char>) -> ErrorView {
    ErrorView::Custom(what + ": FOREIGN KEY constraint failed"@)
}

fn unregistered(what: &str) -> (e: SmolError)
    ensures
        e@ == unregistered_error(what@),
{
    let mut m: String = what.to_owned();
    m.append(": FOREIGN KEY constraint failed");
    SmolError::CustomError(m)
}

/// The analysis that a stored row stands for, given the names of its plots, if
/// they could be read; unreadable ones count as none.
pub fn jacobian_record(row: &JacobianRow, plot_files: Option<Vec<String>>) -> (r: JacobianLensRecord)
    ensures
        r.model_id@ == row.model_id@,
        r.results_json@ == row.results_json@,
        r.plot_dir@ == row.plot_dir@,
        texts(r.plot_files@) == (match plot_files {
            Some(v) => texts(v@),
            None => Seq::empty(),
        }),
        r.computed_at == row.computed_at,
{
    let files: Vec<String> = match plot_files {
        Some(v) => v,
        None => Vec::new(),
    };
    proof {
        if plot_files is None {
            assert(texts(files@) =~= Seq::<Seq<char>>::empty());
        }
    }
    JacobianLensRecord {
        model_id: row.model_id.clone(),
        results_json: row.results_json.clone(),
        plot_dir: row.plot_dir.clone(),
        plot_files: files,
        computed_at: row.computed_at,
    }
}

/// The names of plots that a stored text stands for.
pub open spec fn stored_plots(json: Seq<char>) -> Seq<Seq<char>> {
    match parsed_json_list(json) {
        Some(v) => v,
        None => Seq::empty(),
    }
}

impl Registry {
    /// Stores the exhaustive evaluation of a model in place of the one before.
    pub fn record_eval_grid(
        &mut self,
        model_id: &str,
        eval_min: i64,
        eval_max: i64,
        report_json: &str,
        correct: i64,
        total: i64,
        now: i64,
    ) -> (r: SmolResult<()>)
        requires
            old(self).well_formed(),
        ensures
            final(self).well_formed(),
            final(self).models == old(self).models,
            final(self).evals == old(self).evals,
            final(self).checkpoint_grids == old(self).checkpoint_grids,
            final(self).jacobian_lens_results == old(self).jacobian_lens_results,
            final(self).trainings == old(self).trainings,
            final(self).next_eval_id == old(self).next_eval_id,
            final(self).next_checkpoint_id == old(self).next_checkpoint_id,
            final(self).next_training_id == old(self).next_training_id,
            !old(self).registered(model_id@) ==> fails_with(
                r,
                unregistered_error("record_eval_grid"@),
            ) && final(self).eval_grids == old(self).eval_grids,
            old(self).registered(model_id@) ==> {
                &&& r is Ok
                &&& row_of(final(self).eval_grids@, model_id@) matches Some(g) && g.eval_min
                    == eval_min && g.eval_max == eval_max && g.report_json@ == report_json@
                    && g.correct == correct && g.total == total && g.run_at == now
                    && g.model_id@ == model_id@
                &&& forall|x: Seq<char>|
                    x != model_id@ ==> #[trigger] row_of(final(self).eval_grids@, x) == row_of(
                        old(self).eval_grids@,
                        x,
                    )
            },
    {
        if find_row(&self.models, model_id).is_none() {
            return Err(unregistered("record_eval_grid"));
        }
        let row: EvalGridRecord = EvalGridRecord {
            model_id: model_id.to_owned(),
            eval_min,
            eval_max,
            report_json: report_json.to_owned(),
            correct,
            total,
            run_at: now,
        };
        self.eval_grids = replace_row(&self.eval_grids, row, model_id);
        proof {
            assert forall|i: int| 0 <= i < self.eval_grids@.len() implies self.registered(
                (#[trigger] self.eval_grids@[i]).owner(),
            ) by {
                lemma_row_of_index(self.eval_grids@, i);
                let x = self.eval_grids@[i].owner();
                if x != model_id@ {
                    lemma_row_of_member(old(self).eval_grids@, x);
                    let k = choose|k: int|
                        0 <= k < old(self).eval_grids@.len() && old(self).eval_grids@[k]
                            == self.eval_grids@[i];
                    assert(old(self).registered(old(self).eval_grids@[k].owner()));
                }
            }
        }
        Ok(())
    }

    /// The exhaustive evaluation of a registered model, when it was made for
    /// the operand range that the model has now.
    pub open spec fn served_grid(&self, id: Seq<char>) -> Option<EvalGridRecord> {
        match (row_of(self.eval_grids@, id), self.range_of(id)) {
            (Some(g), Some((lo, hi))) => if g.eval_min == lo && g.eval_max == hi {
                Some(g)
            } else {
                None
            },
            _ => None,
        }
    }

    /// The exhaustive evaluation of a registered model, when it was made for
    /// the operand range that the model has now.
    pub fn latest_eval_grid(&self, model_id: &str) -> (r: Option<EvalGridRecord>)
        ensures
            r == self.served_grid(model_id@),
    {
        match (find_row(&self.eval_grids, model_id), self.find_range(model_id)) {
            (Some(g), Some((lo, hi))) => {
                if g.eval_min == lo && g.eval_max == hi {
                    Some(g)
                } else {
                    None
                }
            },
            _ => None,
        }
    }

    /// Stores the analysis of a model in place of the one before.
    pub fn record_jacobian_lens(
        &mut self,
        model_id: &str,
        results_json: &str,
        plot_dir: &str,
        plot_files: &Vec<String>,
        now: i64,
    ) -> (r: SmolResult<()>)
        requires
            old(self).well_formed(),
        ensures
            final(self).well_formed(),
            final(self).models == old(self).models,
            final(self).evals == old(self).evals,
            final(self).eval_grids == old(self).eval_grids,
            final(self).checkpoint_grids == old(self).checkpoint_grids,
            final(self).trainings == old(self).trainings,
            final(self).next_eval_id == old(self).next_eval_id,
            final(self).next_checkpoint_id == old(self).next_checkpoint_id,
            final(self).next_training_id == old(self).next_training_id,
            !old(self).registered(model_id@) ==> fails_with(
                r,
                unregistered_error("record_jacobian_lens"@),
            ) && final(self).jacobian_lens_results == old(self).jacobian_lens_results,
            old(self).registered(model_id@) ==> {
                &&& r is Ok
                &&& row_of(final(self).jacobian_lens_results@, model_id@) matches Some(j)
                    && j.model_id@ == model_id@ && j.results_json@ == results_json@ && j.plot_dir@
                    == plot_dir@ && j.plot_files@ == json_list(texts(plot_files@))
                    && stored_plots(j.plot_files@) == texts(plot_files@) && j.computed_at == now
                &&& forall|x: Seq<char>|
                    x != model_id@ ==> #[trigger] row_of(final(self).jacobian_lens_results@, x)
                        == row_of(old(self).jacobian_lens_results@, x)
            },
    {
        let json: String = match write_json_list(plot_files) {
            Some(j) => j,
            None => String::new(),
        };
        if find_row(&self.models, model_id).is_none() {
            return Err(unregistered("record_jacobian_lens"));
        }
        let row: JacobianRow = JacobianRow {
            model_id: model_id.to_owned(),
            results_json: results_json.to_owned(),
            plot_dir: plot_dir.to_owned(),
            plot_files: json,
            computed_at: now,
        };
        self.jacobian_lens_results = replace_row(&self.jacobian_lens_results, row, model_id);
        proof {
            assert forall|i: int| 0 <= i < self.jacobian_lens_results@.len() implies self.registered(
                (#[trigger] self.jacobian_lens_results@[i]).owner(),
            ) by {
                lemma_row_of_index(self.jacobian_lens_results@, i);
                let x = self.jacobian_lens_results@[i].owner();
                if x != model_id@ {
                    lemma_row_of_member(old(self).jacobian_lens_results@, x);
                    let k = choose|k: int|
                        0 <= k < old(self).jacobian_lens_results@.len() && old(
                            self,
                        ).jacobian_lens_results@[k] == self.jacobian_lens_results@[i];
                    assert(old(self).registered(old(self).jacobian_lens_results@[k].owner()));
                }
            }
        }
        Ok(())
    }

    /// The analysis of a model, if there is one.
    pub fn latest_jacobian_lens(&self, model_id: &str) -> (r: Option<JacobianLensRecord>)
        ensures
            match row_of(self.jacobian_lens_results@, model_id@) {
                None => r is None,
                Some(row) => r matches Some(j) && j.model_id@ == row.model_id@ && j.results_json@
                    == row.results_json@ && j.plot_dir@ == row.plot_dir@ && texts(j.plot_files@)
                    == stored_plots(row.plot_files@) && j.computed_at == row.computed_at,
            },
    {
        match find_row(&self.jacobian_lens_results, model_id) {
            None => None,
            Some(row) => {
                let files: Option<Vec<String>> = read_json_list(row.plot_files.as_str());
                Some(jacobian_record(&row, files))
            },
        }
    }
}

/// A stored grid is served exactly while the model has the range that the grid
/// was made for: right after it was recorded for that range, and no longer once
/// the range has changed.
pub proof fn law_grid_is_served_for_its_range(reg: Registry, id: Seq<char>, g: EvalGridRecord)
    requires
        row_of(reg.eval_grids@, id) == Some(g),
    ensures
        reg.range_of(id) == Some((g.eval_min, g.eval_max)) ==> reg.served_grid(id) == Some(g),
        reg.range_of(id) != Some((g.eval_min, g.eval_max)) ==> reg.served_grid(id) is None,
{
}

/// What a snapshot row holds.
pub open spec fn snapshot_holds(
    c: CheckpointGridRecord,
    model_id: Seq<char>,
    epoch: usize,
    loss: u64,
    eval_min: i64,
    eval_max: i64,
    report_json: Seq<char>,
    correct: i64,
    total: i64,
    now: i64,
) -> bool {
    &&& c.model_id@ == model_id
    &&& c.epoch == epoch as i64
    &&& c.loss == loss
    &&& c.eval_min == eval_min
    &&& c.eval_max == eval_max
    &&& c.report_json@ == report_json
    &&& c.correct == correct
    &&& c.total == total
    &&& c.run_at == now
}

impl Registry {
    /// Adds a snapshot to the history of a model, and thins the history when
    /// it is over the limit.
    pub fn record_checkpoint_grid(
        &mut self,
        model_id: &str,
        epoch: usize,
        loss: u64,
        eval_min: i64,
        eval_max: i64,
        report_json: &str,
        correct: i64,
        total: i64,
        now: i64,
    ) -> (r: SmolResult<()>)
        requires
            old(self).well_formed(),
            old(self).next_checkpoint_id < i64::MAX,
        ensures
            final(self).well_formed(),
            final(self).models == old(self).models,
            final(self).evals == old(self).evals,
            final(self).eval_grids == old(self).eval_grids,
            final(self).jacobian_lens_results == old(self).jacobian_lens_results,
            final(self).trainings == old(self).trainings,
            final(self).next_eval_id == old(self).next_eval_id,
            final(self).next_training_id == old(self).next_training_id,
            !old(self).registered(model_id@) ==> fails_with(
                r,
                unregistered_error("record_checkpoint_grid"@),
            ) && final(self).checkpoint_grids == old(self).checkpoint_grids
                && final(self).next_checkpoint_id == old(self).next_checkpoint_id,
            old(self).registered(model_id@) ==> {
                &&& r is Ok
                &&& final(self).next_checkpoint_id == old(self).next_checkpoint_id + 1
                &&& exists|row: CheckpointGridRecord|
                    snapshot_holds(
                        row,
                        model_id@,
                        epoch,
                        loss,
                        eval_min,
                        eval_max,
                        report_json@,
                        correct,
                        total,
                        now,
                    ) && row.id == old(self).next_checkpoint_id && rows_of(
                        final(self).checkpoint_grids@,
                        model_id@,
                    ) == #[trigger] extended(rows_of(old(self).checkpoint_grids@, model_id@), row)
                &&& forall|x: Seq<char>|
                    x != model_id@ ==> #[trigger] rows_of(final(self).checkpoint_grids@, x)
                        == rows_of(old(self).checkpoint_grids@, x)
            },
    {
        if find_row(&self.models, model_id).is_none() {
            return Err(unregistered("record_checkpoint_grid"));
        }
        #[verifier::truncate]
        let stored_epoch: i64 = epoch as i64;
        let row: CheckpointGridRecord = CheckpointGridRecord {
            id: self.next_checkpoint_id,
            model_id: model_id.to_owned(),
            epoch: stored_epoch,
            loss,
            eval_min,
            eval_max,
            report_json: report_json.to_owned(),
            correct,
            total,
            run_at: now,
        };
        let ghost h = rows_of(old(self).checkpoint_grids@, model_id@);
        insert_snapshot(&mut self.checkpoint_grids, row);
        self.next_checkpoint_id = self.next_checkpoint_id + 1;
        let ghost mid = self.checkpoint_grids@;
        let n: usize = select_rows(&self.checkpoint_grids, model_id).len();
        if n > MAX_CHECKPOINT_GRIDS_PER_MODEL {
            self.checkpoint_grids = thin_rows(&self.checkpoint_grids, model_id, n);
        }
        proof {
            assert(rows_of(mid, model_id@) == inserted(h, row));
            assert(rows_of(self.checkpoint_grids@, model_id@) == extended(h, row));
            assert forall|x: Seq<char>| x != model_id@ implies #[trigger] rows_of(
                self.checkpoint_grids@,
                x,
            ) == rows_of(old(self).checkpoint_grids@, x) by {
                assert(rows_of(mid, x) == rows_of(old(self).checkpoint_grids@, x));
            }
            assert forall|i: int| 0 <= i < self.checkpoint_grids@.len() implies mid.contains(
                #[trigger] self.checkpoint_grids@[i],
            ) by {
                if n <= MAX_CHECKPOINT_GRIDS_PER_MODEL {
                    assert(self.checkpoint_grids@[i] == mid[i]);
                }
            }
            assert forall|i: int| 0 <= i < self.checkpoint_grids@.len() implies ((
            #[trigger] self.checkpoint_grids@[i]).id < self.next_checkpoint_id && self.registered(
                self.checkpoint_grids@[i].owner(),
            )) by {
                assert(mid.contains(self.checkpoint_grids@[i]));
                let k = choose|k: int| 0 <= k < mid.len() && mid[k] == self.checkpoint_grids@[i];
                assert(mid[k] == row || old(self).checkpoint_grids@.contains(mid[k]));
                if mid[k] != row {
                    let l = choose|l: int|
                        0 <= l < old(self).checkpoint_grids@.len() && old(
                            self,
                        ).checkpoint_grids@[l] == mid[k];
                    assert(old(self).checkpoint_grids@[l].id < old(self).next_checkpoint_id);
                    assert(old(self).registered(old(self).checkpoint_grids@[l].owner()));
                }
            }
        }
        Ok(())
    }

    /// The snapshots of a model, in the order of their epochs.
    pub fn list_checkpoint_grids(&self, model_id: &str) -> (r: Vec<CheckpointGridRecord>)
        requires
            self.well_formed(),
        ensures
            r@ == rows_of(self.checkpoint_grids@, model_id@),
            in_epoch_order(r@),
    {
        let r: Vec<CheckpointGridRecord> = select_rows(&self.checkpoint_grids, model_id);
        proof {
            let m = lemma_own_indices(self.checkpoint_grids@, model_id@);
            assert forall|i: int, j: int| 0 <= i < j < r@.len() implies earlier(
                #[trigger] r@[i],
                #[trigger] r@[j],
            ) by {
                assert(earlier(self.checkpoint_grids@[m[i]], self.checkpoint_grids@[m[j]]));
            }
        }
        r
    }
}

/// Where the rows of a model stand.
proof fn lemma_own_indices<R: OwnedRow>(rows: Seq<R>, id: Seq<char>) -> (m: Seq<int>)
    ensures
        m.len() == rows_of(rows, id).len(),
        forall|i: int|
            0 <= i < m.len() ==> 0 <= #[trigger] m[i] < rows.len() && rows_of(rows, id)[i]
                == rows[m[i]],
        forall|i: int, j: int| 0 <= i < j < m.len() ==> #[trigger] m[i] < #[trigger] m[j],
    decreases rows.len(),
{
    if rows.len() == 0 {
        Seq::empty()
    } else {
        let t = rows.drop_last();
        let m = lemma_own_indices(t, id);
        if rows.last().owner() == id {
            m.push(rows.len() - 1)
        } else {
            m
        }
    }
}

/// The training row of a model and a kind, if there is one.
pub open spec fn training_of(
    rows: Seq<TrainingRecord>,
    model_id: Seq<char>,
    kind: Seq<char>,
) -> Option<TrainingRecord>
    decreases rows.len(),
{
    if rows.len() == 0 {
        None
    } else if same_training(rows.last(), model_id, kind) {
        Some(rows.last())
    } else {
        training_of(rows.drop_last(), model_id, kind)
    }
}

/// The first of two values that is there.
pub open spec fn first_known<T>(a: Option<T>, b: Option<T>) -> Option<T> {
    match a {
        Some(_) => a,
        None => b,
    }
}

/// Whether `t` is what an update makes of the row `before`: what the update
/// does not know stays as it was.
pub open spec fn training_updated(
    t: TrainingRecord,
    before: Option<TrainingRecord>,
    model_id: Seq<char>,
    kind: Seq<char>,
    update: TrainingUpdate,
    now: i64,
) -> bool {
    &&& t.model_id@ == model_id
    &&& t.kind@ == kind
    &&& t.epochs_run == update.epochs_run as i64
    &&& t.early_stopped == update.early_stopped
    &&& t.final_loss == update.final_loss
    &&& t.loss_trajectory_json@ == update.loss_trajectory_json@
    &&& t.rft_summary_json@ == update.rft_summary_json@
    &&& t.train_correct == first_known(
        update.train_correct,
        match before {
            Some(b) => b.train_correct,
            None => None,
        },
    )
    &&& t.train_total == first_known(
        update.train_total,
        match before {
            Some(b) => b.train_total,
            None => None,
        },
    )
    &&& t.prompt_min == first_known(
        update.prompt_min,
        match before {
            Some(b) => b.prompt_min,
            None => None,
        },
    )
    &&& t.prompt_max == first_known(
        update.prompt_max,
        match before {
            Some(b) => b.prompt_max,
            None => None,
        },
    )
    &&& opt_text(t.prompt_ops) == first_known(
        opt_text(update.prompt_ops),
        match before {
            Some(b) => opt_text(b.prompt_ops),
            None => None,
        },
    )
    &&& t.trained_at == now
}

/// What a training run reports of itself. A missing value is not known, and
/// leaves what is stored as it is. The loss is held by the bits of its 64-bit
/// floating-point form.
pub struct TrainingUpdate {
    pub epochs_run: usize,
    pub early_stopped: bool,
    pub final_loss: u64,
    pub loss_trajectory_json: String,
    pub rft_summary_json: String,
    pub train_correct: Option<i64>,
    pub train_total: Option<i64>,
    pub prompt_min: Option<i64>,
    pub prompt_max: Option<i64>,
    pub prompt_ops: Option<String>,
}

proof fn lemma_training_of(rows: Seq<TrainingRecord>, model_id: Seq<char>, kind: Seq<char>)
    ensures
        match training_of(rows, model_id, kind) {
            Some(t) => same_training(t, model_id, kind) && rows.contains(t),
            None => forall|i: int|
                0 <= i < rows.len() ==> !same_training(#[trigger] rows[i], model_id, kind),
        },
    decreases rows.len(),
{
    if rows.len() > 0 {
        lemma_training_of(rows.drop_last(), model_id, kind);
        if same_training(rows.last(), model_id, kind) {
            assert(rows[rows.len() - 1] == rows.last());
        } else {
            match training_of(rows.drop_last(), model_id, kind) {
                Some(t) => {
                    let k = choose|k: int|
                        0 <= k < rows.drop_last().len() && rows.drop_last()[k] == t;
                    assert(rows[k] == t);
                },
                None => {
                    assert forall|i: int| 0 <= i < rows.len() implies !same_training(
                        #[trigger] rows[i],
                        model_id,
                        kind,
                    ) by {
                        if i < rows.len() - 1 {
                            assert(rows.drop_last()[i] == rows[i]);
                        }
                    }
                },
            }
        }
    }
}

/// Replacing one row changes the training of its model and kind alone.
proof fn lemma_training_update(rows: Seq<TrainingRecord>, k: int, t: TrainingRecord)
    requires
        0 <= k < rows.len(),
        same_training(t, rows[k].model_id@, rows[k].kind@),
        forall|i: int, j: int|
            0 <= i < j < rows.len() ==> !same_training(
                #[trigger] rows[i],
                (#[trigger] rows[j]).model_id@,
                rows[j].kind@,
            ),
    ensures
        forall|m: Seq<char>, kd: Seq<char>|
            #[trigger] training_of(rows.update(k, t), m, kd) == if same_training(t, m, kd) {
                Some(t)
            } else {
                training_of(rows, m, kd)
            },
    decreases rows.len(),
{
    let out = rows.update(k, t);
    let first = rows.drop_last();
    if k == rows.len() - 1 {
        assert(out.drop_last() =~= first);
        assert forall|m: Seq<char>, kd: Seq<char>| #[trigger] training_of(out, m, kd) == if same_training(
            t,
            m,
            kd,
        ) {
            Some(t)
        } else {
            training_of(rows, m, kd)
        } by {}
    } else {
        assert(out.drop_last() =~= first.update(k, t));
        assert forall|i: int, j: int| 0 <= i < j < first.len() implies !same_training(
            #[trigger] first[i],
            (#[trigger] first[j]).model_id@,
            first[j].kind@,
        ) by {
            assert(first[i] == rows[i] && first[j] == rows[j]);
        }
        assert(first[k] == rows[k]);
        lemma_training_update(first, k, t);
        assert forall|m: Seq<char>, kd: Seq<char>| #[trigger] training_of(out, m, kd) == if same_training(
            t,
            m,
            kd,
        ) {
            Some(t)
        } else {
            training_of(rows, m, kd)
        } by {
            assert(training_of(first.update(k, t), m, kd) == if same_training(t, m, kd) {
                Some(t)
            } else {
                training_of(first, m, kd)
            });
            assert(out.last() == rows.last());
            if same_training(t, m, kd) && same_training(rows.last(), m, kd) {
                assert(!same_training(
                    rows[k],
                    rows[rows.len() - 1].model_id@,
                    rows[rows.len() - 1].kind@,
                ));
            }
        }
    }
}

impl Registry {
    fn find_training(&self, model_id: &str, kind: &str) -> (r: Option<usize>)
        ensures
            match r {
                Some(k) => k < self.trainings@.len() && same_training(
                    self.trainings@[k as int],
                    model_id@,
                    kind@,
                ),
                None => forall|i: int|
                    0 <= i < self.trainings@.len() ==> !same_training(
                        #[trigger] self.trainings@[i],
                        model_id@,
                        kind@,
                    ),
            },
    {
        let mut i: usize = 0;
        while i < self.trainings.len()
            invariant
                i <= self.trainings.len(),
                forall|k: int|
                    0 <= k < i ==> !same_training(
                        #[trigger] self.trainings@[k],
                        model_id@,
                        kind@,
                    ),
            decreases self.trainings.len() - i,
        {
            if same_text(self.trainings[i].model_id.as_str(), model_id) && same_text(
                self.trainings[i].kind.as_str(),
                kind,
            ) {
                return Some(i);
            }
            i += 1;
        }
        None
    }

    /// Stores what a training run reports, in the one row of its model and
    /// kind. What the report does not know stays as it was.
    pub fn upsert_training(&mut self, model_id: &str, kind: &str, update: &TrainingUpdate, now: i64)
        requires
            old(self).well_formed(),
            training_of(old(self).trainings@, model_id@, kind@) is None ==> old(
                self,
            ).next_training_id < i64::MAX,
        ensures
            final(self).well_formed(),
            final(self).models == old(self).models,
            final(self).evals == old(self).evals,
            final(self).eval_grids == old(self).eval_grids,
            final(self).checkpoint_grids == old(self).checkpoint_grids,
            final(self).jacobian_lens_results == old(self).jacobian_lens_results,
            final(self).next_eval_id == old(self).next_eval_id,
            final(self).next_checkpoint_id == old(self).next_checkpoint_id,
            training_of(final(self).trainings@, model_id@, kind@) matches Some(t)
                && training_updated(
                t,
                training_of(old(self).trainings@, model_id@, kind@),
                model_id@,
                kind@,
                *update,
                now,
            ) && t.id == (match training_of(old(self).trainings@, model_id@, kind@) {
                Some(b) => b.id,
                None => old(self).next_training_id,
            }),
            final(self).next_training_id == old(self).next_training_id + if training_of(
                old(self).trainings@,
                model_id@,
                kind@,
            ) is None {
                1int
            } else {
                0
            },
            forall|m: Seq<char>, k: Seq<char>|
                m != model_id@ || k != kind@ ==> #[trigger] training_of(
                    final(self).trainings@,
                    m,
                    k,
                ) == training_of(old(self).trainings@, m, k),
    {
        #[verifier::truncate]
        let epochs_run: i64 = update.epochs_run as i64;
        let ghost o = old(self).trainings@;
        match self.find_training(model_id, kind) {
            Some(k) => {
                proof {
                    lemma_training_of(o, model_id@, kind@);
                    let t = training_of(o, model_id@, kind@);
                    assert(same_training(o[k as int], model_id@, kind@));
                    let j = choose|j: int| 0 <= j < o.len() && o[j] == t->0;
                    if j < k {
                        assert(!same_training(o[j], o[k as int].model_id@, o[k as int].kind@));
                    } else if k < j {
                        assert(!same_training(o[k as int], o[j].model_id@, o[j].kind@));
                    }
                    assert(t == Some(o[k as int]));
                }
                let b: TrainingRecord = self.trainings[k].copy_row();
                let row: TrainingRecord = TrainingRecord {
                    id: b.id,
                    model_id: b.model_id,
                    kind: b.kind,
                    epochs_run,
                    early_stopped: update.early_stopped,
                    final_loss: update.final_loss,
                    loss_trajectory_json: update.loss_trajectory_json.clone(),
                    rft_summary_json: update.rft_summary_json.clone(),
                    train_correct: if update.train_correct.is_some() {
                        update.train_correct
                    } else {
                        b.train_correct
                    },
                    train_total: if update.train_total.is_some() {
                        update.train_total
                    } else {
                        b.train_total
                    },
                    prompt_min: if update.prompt_min.is_some() {
                        update.prompt_min
                    } else {
                        b.prompt_min
                    },
                    prompt_max: if update.prompt_max.is_some() {
                        update.prompt_max
                    } else {
                        b.prompt_max
                    },
                    prompt_ops: if update.prompt_ops.is_some() {
                        clone_opt(&update.prompt_ops)
                    } else {
                        b.prompt_ops
                    },
                    trained_at: now,
                };
                proof {
                    lemma_training_update(o, k as int, row);
                }
                self.trainings.set(k, row);
                proof {
                    let n = self.trainings@;
                    assert(n =~= o.update(k as int, row));
                    assert forall|i: int, j: int| 0 <= i < j < n.len() implies !same_training(
                        #[trigger] n[i],
                        (#[trigger] n[j]).model_id@,
                        n[j].kind@,
                    ) && n[i].id < n[j].id by {
                        assert(!same_training(o[i], o[j].model_id@, o[j].kind@));
                        assert(o[i].id < o[j].id);
                    }
                    assert forall|i: int| 0 <= i < n.len() implies (#[trigger] n[i]).id
                        < self.next_training_id by {
                        assert(o[i].id < self.next_training_id);
                    }
                }
            },
            None => {
                proof {
                    lemma_training_of(o, model_id@, kind@);
                }
                let row: TrainingRecord = TrainingRecord {
                    id: self.next_training_id,
                    model_id: model_id.to_owned(),
                    kind: kind.to_owned(),
                    epochs_run,
                    early_stopped: update.early_stopped,
                    final_loss: update.final_loss,
                    loss_trajectory_json: update.loss_trajectory_json.clone(),
                    rft_summary_json: update.rft_summary_json.clone(),
                    train_correct: update.train_correct,
                    train_total: update.train_total,
                    prompt_min: update.prompt_min,
                    prompt_max: update.prompt_max,
                    prompt_ops: clone_opt(&update.prompt_ops),
                    trained_at: now,
                };
                self.trainings.push(row);
                self.next_training_id = self.next_training_id + 1;
                proof {
                    let n = self.trainings@;
                    assert(n.drop_last() =~= o);
                    assert forall|i: int, j: int| 0 <= i < j < n.len() implies !same_training(
                        #[trigger] n[i],
                        (#[trigger] n[j]).model_id@,
                        n[j].kind@,
                    ) && n[i].id < n[j].id by {
                        assert(n[i] == o[i]);
                        if j < o.len() {
                            assert(n[j] == o[j]);
                        } else {
                            assert(!same_training(o[i], model_id@, kind@));
                        }
                    }
                    assert forall|i: int| 0 <= i < n.len() implies (#[trigger] n[i]).id
                        < self.next_training_id by {
                        if i < o.len() {
                            assert(n[i] == o[i]);
                        }
                    }
                }
            },
        }
    }

    /// The newest training of a model, of whatever kind.
    pub fn latest_training(&self, model_id: &str) -> (r: Option<TrainingRecord>)
        ensures
            is_newest_training(rows_of(self.trainings@, model_id@), r),
    {
        let rows: Vec<TrainingRecord> = select_rows(&self.trainings, model_id);
        let mut best: Option<usize> = None;
        let mut i: usize = 0;
        while i < rows.len()
            invariant
                i <= rows.len(),
                match best {
                    Some(b) => b < i && forall|k: int|
                        0 <= k < i ==> training_no_newer(#[trigger] rows@[k], rows@[b as int]),
                    None => i == 0,
                },
            decreases rows.len() - i,
        {
            match best {
                None => {
                    best = Some(i);
                },
                Some(b) => {
                    if rows[b].trained_at < rows[i].trained_at || (rows[b].trained_at
                        == rows[i].trained_at && rows[b].id <= rows[i].id) {
                        best = Some(i);
                    }
                },
            }
            i += 1;
        }
        match best {
            Some(b) => {
                assert(rows@.contains(rows@[b as int]));
                Some(rows[b].copy_row())
            },
            None => None,
        }
    }
}

/// Whether `a` is no newer than `b`: by time, then by id.
pub open spec fn training_no_newer(a: TrainingRecord, b: TrainingRecord) -> bool {
    a.trained_at < b.trained_at || (a.trained_at == b.trained_at && a.id <= b.id)
}

/// Whether `r` is the newest of `rows`, or `None` where there is none.
pub open spec fn is_newest_training(rows: Seq<TrainingRecord>, r: Option<TrainingRecord>) -> bool {
    match r {
        Some(t) => rows.contains(t) && forall|i: int|
            0 <= i < rows.len() ==> training_no_newer(#[trigger] rows[i], t),
        None => rows.len() == 0,
    }
}

/// An update that does not know a value keeps the one that was stored before.
pub proof fn law_unknown_values_are_kept(
    t: TrainingRecord,
    before: TrainingRecord,
    model_id: Seq<char>,
    kind: Seq<char>,
    update: TrainingUpdate,
    now: i64,
)
    requires
        training_updated(t, Some(before), model_id, kind, update, now),
    ensures
        update.train_correct is None ==> t.train_correct == before.train_correct,
        update.train_total is None ==> t.train_total == before.train_total,
        update.prompt_min is None ==> t.prompt_min == before.prompt_min,
        update.prompt_max is None ==> t.prompt_max == before.prompt_max,
        update.prompt_ops is None ==> opt_text(t.prompt_ops) == opt_text(before.prompt_ops),
{
}

/// A training that was updated after all others of its model is the latest one.
pub proof fn law_updated_training_is_latest(
    rows: Seq<TrainingRecord>,
    t: TrainingRecord,
    r: Option<TrainingRecord>,
)
    requires
        rows.contains(t),
        forall|i: int|
            0 <= i < rows.len() ==> #[trigger] rows[i] == t || rows[i].trained_at < t.trained_at,
        is_newest_training(rows, r),
    ensures
        r == Some(t),
{
    let k = choose|k: int| 0 <= k < rows.len() && rows[k] == t;
    assert(rows[k] == t);
    match r {
        Some(x) => {
            let j = choose|j: int| 0 <= j < rows.len() && rows[j] == x;
            assert(rows[j] == x);
            assert(training_no_newer(rows[k], x));
        },
        None => {},
    }
}

/// Registering a model again keeps its history: its evaluations, grid,
/// snapshots and trainings stay, and so does the time at which it was created.
/// Everything else is taken from the new record.
pub proof fn law_registering_again_keeps_history(
    before: Registry,
    after: Registry,
    old_model: ModelView,
    new_model: ModelView,
)
    requires
        after.rows_after_registering(&before, new_model.id, new_model.path),
    ensures
        rows_of(after.evals@, new_model.id) == rows_of(before.evals@, new_model.id),
        row_of(after.eval_grids@, new_model.id) == row_of(before.eval_grids@, new_model.id),
        rows_of(after.checkpoint_grids@, new_model.id) == rows_of(
            before.checkpoint_grids@,
            new_model.id,
        ),
        after.trainings == before.trainings,
        updated_model(Some(old_model), new_model).created_at == old_model.created_at,
        updated_model(Some(old_model), new_model) == (ModelView {
            created_at: old_model.created_at,
            ..new_model
        }),
{
    assert(!before.displaced(new_model.id, new_model.path, new_model.id));
}

/// Registering a model again forgets its analysis, so that one which is found
/// is always one of the weights that the model has now. The analyses of other
/// models stay, except for that of a model whose path is taken.
pub proof fn law_registering_again_forgets_the_analysis(
    before: Registry,
    after: Registry,
    id: Seq<char>,
    path: Seq<char>,
    other: Seq<char>,
)
    requires
        after.rows_after_registering(&before, id, path),
        other != id,
        !before.displaced(id, path, other),
    ensures
        row_of(after.jacobian_lens_results@, id) is None,
        row_of(after.jacobian_lens_results@, other) == row_of(before.jacobian_lens_results@, other),
{
}

/// What linking a model to its base makes of it: one without a link whose id
/// is that of a registered model and a variant suffix is linked to that model.
pub open spec fn linked(m: ModelView, base_registered: spec_fn(Seq<char>) -> bool) -> ModelView {
    match (m.base_model_id, base_id_of(m.id)) {
        (None, Some(b)) => if base_registered(b) {
            ModelView { base_model_id: Some(b), ..m }
        } else {
            m
        },
        _ => m,
    }
}

impl Registry {
    /// Links each variant that has no link to its base model, where that one is
    /// registered.
    pub fn backfill_base_model_ids(&mut self)
        requires
            old(self).well_formed(),
        ensures
            final(self).well_formed(),
            final(self).same_rows(old(self)),
            forall|x: Seq<char>|
                #[trigger] final(self).model(x) == match old(self).model(x) {
                    Some(m) => Some(linked(m, |b: Seq<char>| old(self).registered(b))),
                    None => None,
                },
    {
        let ghost known = |b: Seq<char>| old(self).registered(b);
        let mut out: Vec<ModelRecord> = Vec::new();
        let mut i: usize = 0;
        while i < self.models.len()
            invariant
                i <= self.models.len(),
                *self == *old(self),
                known == |b: Seq<char>| old(self).registered(b),
                out@.len() == i,
                forall|k: int|
                    0 <= k < i ==> (#[trigger] out@[k])@ == linked(self.models@[k]@, known),
            decreases self.models.len() - i,
        {
            let mut m: ModelRecord = self.models[i].copy_row();
            if m.base_model_id.is_none() {
                if let Some(b) = strip_variant_suffix(m.id.as_str()) {
                    if find_row(&self.models, b.as_str()).is_some() {
                        assert(known(b@));
                        m.base_model_id = Some(b);
                    } else {
                        assert(!known(b@));
                    }
                }
            }
            out.push(m);
            i += 1;
        }
        let ghost o = self.models@;
        self.models = out;
        proof {
            let n = self.models@;
            assert forall|k: int| 0 <= k < n.len() implies (#[trigger] n[k]).owner()
                == o[k].owner() && n[k].path@ == o[k].path@ by {
                assert(n[k]@ == linked(o[k]@, known));
            }
            assert forall|a: int, b: int| 0 <= a < b < n.len() implies (#[trigger] n[a]).owner()
                != (#[trigger] n[b]).owner() && n[a].path@ != n[b].path@ by {
                assert(o[a].owner() != o[b].owner());
                assert(o[a].path@ != o[b].path@);
            }
            assert(one_row_each(n));
            assert forall|x: Seq<char>| #[trigger] row_of(n, x) is Some <==> row_of(
                o,
                x,
            ) is Some by {
                lemma_same_owners(n, o, x);
            }
            assert forall|x: Seq<char>| #[trigger] self.model(x) == match old(self).model(x) {
                Some(m) => Some(linked(m, known)),
                None => None,
            } by {
                lemma_same_owners(n, o, x);
                lemma_row_of_member(o, x);
                if let Some(m) = row_of(o, x) {
                    let k = choose|k: int| 0 <= k < o.len() && o[k] == m;
                    lemma_row_of_index(o, k);
                    lemma_row_of_index(n, k);
                    assert(n[k]@ == linked(o[k]@, known));
                }
            }
            assert forall|x: Seq<char>| #[trigger] self.registered(x) == old(self).registered(
                x,
            ) by {
                assert(row_of(n, x) is Some <==> row_of(o, x) is Some);
            }
            assert forall|k: int| 0 <= k < self.eval_grids@.len() implies self.registered(
                (#[trigger] self.eval_grids@[k]).owner(),
            ) by {
                assert(old(self).registered(self.eval_grids@[k].owner()));
            }
            assert forall|k: int| 0 <= k < self.checkpoint_grids@.len() implies self.registered(
                (#[trigger] self.checkpoint_grids@[k]).owner(),
            ) by {
                assert(old(self).registered(self.checkpoint_grids@[k].owner()));
            }
            assert forall|k: int| 0 <= k < self.jacobian_lens_results@.len() implies self.registered(
                (#[trigger] self.jacobian_lens_results@[k]).owner(),
            ) by {
                assert(old(self).registered(self.jacobian_lens_results@[k].owner()));
            }
        }
    }

    /// Registers a model whose training is about to start. What described its
    /// weights before, its snapshots and its analysis, is forgotten.
    pub fn begin_training(&mut self, rec: &ModelRecord)
        requires
            old(self).well_formed(),
        ensures
            final(self).well_formed(),
            forall|x: Seq<char>|
                #[trigger] final(self).model(x) == if x == rec.id@ {
                    Some(updated_model(old(self).model(x), rec@))
                } else if old(self).displaced(rec.id@, rec.path@, x) {
                    None
                } else {
                    old(self).model(x)
                },
            forall|x: Seq<char>|
                #[trigger] rows_of(final(self).evals@, x) == if old(self).displaced(
                    rec.id@,
                    rec.path@,
                    x,
                ) {
                    Seq::empty()
                } else {
                    rows_of(old(self).evals@, x)
                },
            forall|x: Seq<char>|
                #[trigger] row_of(final(self).eval_grids@, x) == if old(self).displaced(
                    rec.id@,
                    rec.path@,
                    x,
                ) {
                    None
                } else {
                    row_of(old(self).eval_grids@, x)
                },
            forall|x: Seq<char>|
                #[trigger] rows_of(final(self).checkpoint_grids@, x) == if x == rec.id@ || old(
                    self,
                ).displaced(rec.id@, rec.path@, x) {
                    Seq::empty()
                } else {
                    rows_of(old(self).checkpoint_grids@, x)
                },
            forall|x: Seq<char>|
                #[trigger] row_of(final(self).jacobian_lens_results@, x) == if x == rec.id@ || old(
                    self,
                ).displaced(rec.id@, rec.path@, x) {
                    None
                } else {
                    row_of(old(self).jacobian_lens_results@, x)
                },
            final(self).trainings == old(self).trainings,
            final(self).next_eval_id == old(self).next_eval_id,
            final(self).next_checkpoint_id == old(self).next_checkpoint_id,
            final(self).next_training_id == old(self).next_training_id,
    {
        self.register_model(rec);
        let ghost mid = *self;
        self.checkpoint_grids = remove_rows(&self.checkpoint_grids, rec.id.as_str());
        proof {
            let id = rec.id@;
            assert forall|x: Seq<char>| #[trigger] rows_of(self.checkpoint_grids@, x) == if x == id {
                Seq::empty()
            } else {
                rows_of(mid.checkpoint_grids@, x)
            } by {
                law_removal_is_local(mid.checkpoint_grids@, id, x);
            }
            let c = lemma_kept_indices(mid.checkpoint_grids@, id);
            assert forall|i: int, j: int| 0 <= i < j < self.checkpoint_grids@.len() implies earlier(
                #[trigger] self.checkpoint_grids@[i],
                #[trigger] self.checkpoint_grids@[j],
            ) by {
                assert(earlier(mid.checkpoint_grids@[c[i]], mid.checkpoint_grids@[c[j]]));
            }
            assert forall|i: int| 0 <= i < self.checkpoint_grids@.len() implies (
            #[trigger] self.checkpoint_grids@[i]).id < self.next_checkpoint_id && self.registered(
                self.checkpoint_grids@[i].owner(),
            ) by {
                assert(mid.checkpoint_grids@[c[i]].id < mid.next_checkpoint_id);
                assert(mid.registered(mid.checkpoint_grids@[c[i]].owner()));
            }
            assert forall|i: int| 0 <= i < self.jacobian_lens_results@.len() implies self.registered(
                (#[trigger] self.jacobian_lens_results@[i]).owner(),
            ) by {
                assert(mid.registered(mid.jacobian_lens_results@[i].owner()));
            }
            assert forall|i: int| 0 <= i < self.eval_grids@.len() implies self.registered(
                (#[trigger] self.eval_grids@[i]).owner(),
            ) by {
                assert(mid.registered(mid.eval_grids@[i].owner()));
            }
            assert forall|x: Seq<char>| #[trigger] self.model(x) == mid.model(x) by {}
        }
    }
}

/// Tables with the same owners in the same places have rows for the same
/// models.
proof fn lemma_same_owners<R: OwnedRow>(a: Seq<R>, b: Seq<R>, id: Seq<char>)
    requires
        a.len() == b.len(),
        forall|k: int| 0 <= k < a.len() ==> (#[trigger] a[k]).owner() == b[k].owner(),
    ensures
        row_of(a, id) is Some <==> row_of(b, id) is Some,
{
    lemma_row_of_member(a, id);
    lemma_row_of_member(b, id);
    if let Some(x) = row_of(a, id) {
        let k = choose|k: int| 0 <= k < a.len() && a[k] == x;
        assert(b[k].owner() == id);
    }
    if let Some(x) = row_of(b, id) {
        let k = choose|k: int| 0 <= k < b.len() && b[k] == x;
        assert(a[k].owner() == id);
    }
}

/// Linking a second time changes nothing.
pub proof fn law_backfill_is_idempotent(m: ModelView, known: spec_fn(Seq<char>) -> bool)
    ensures
        linked(linked(m, known), known) == linked(m, known),
{
}

/// The columns of `wanted` that are not among `existing`, in order.
pub open spec fn missing(existing: Seq<Seq<char>>, wanted: Seq<Seq<char>>) -> Seq<Seq<char>> {
    wanted.filter(|c: Seq<char>| !existing.contains(c))
}

/// The columns that a table lacks and that have to be added to it.
pub fn missing_columns(existing: &Vec<String>, wanted: &Vec<String>) -> (r: Vec<String>)
    ensures
        texts(r@) == missing(texts(existing@), texts(wanted@)),
{
    let ghost have = texts(existing@);
    let ghost want = texts(wanted@);
    let ghost lacks = |c: Seq<char>| !have.contains(c);
    let mut out: Vec<String> = Vec::new();
    let mut i: usize = 0;
    reveal(Seq::filter);
    assert(texts(out@) =~= want.take(0).filter(lacks));
    while i < wanted.len()
        invariant
            i <= wanted.len(),
            have == texts(existing@),
            want == texts(wanted@),
            lacks == |c: Seq<char>| !have.contains(c),
            texts(out@) == want.take(i as int).filter(lacks),
        decreases wanted.len() - i,
    {
        let ghost c = wanted@[i as int]@;
        proof {
            assert(want[i as int] == c);
            assert(want.take(i + 1).drop_last() =~= want.take(i as int));
            reveal(Seq::filter);
        }
        let mut found: bool = false;
        let mut j: usize = 0;
        while j < existing.len() && !found
            invariant
                i < wanted.len(),
                j <= existing.len(),
                have == texts(existing@),
                c == wanted@[i as int]@,
                found ==> have.contains(c),
                !found ==> forall|k: int| 0 <= k < j ==> #[trigger] have[k] != c,
            decreases existing.len() - j + if found { 0int } else { 1int },
        {
            if same_text(existing[j].as_str(), wanted[i].as_str()) {
                assert(have[j as int] == c);
                found = true;
            } else {
                assert(have[j as int] != c);
                j += 1;
            }
        }
        if !found {
            assert(!have.contains(c));
            let ghost before_push = texts(out@);
            out.push(wanted[i].clone());
            assert(texts(out@) =~= before_push.push(c));
        }
        i += 1;
    }
    assert(want.take(i as int) =~= want);
    out
}

/// Once the missing columns are added, none is missing.
pub proof fn law_columns_are_added_once(existing: Seq<Seq<char>>, wanted: Seq<Seq<char>>)
    ensures
        missing(existing + missing(existing, wanted), wanted).len() == 0,
{
    let lacks = |c: Seq<char>| !existing.contains(c);
    let more = missing(existing, wanted);
    let all = existing + more;
    let still = |c: Seq<char>| !all.contains(c);
    assert forall|i: int| 0 <= i < wanted.len() implies !still(#[trigger] wanted[i]) by {
        let c = wanted[i];
        if existing.contains(c) {
            let k = choose|k: int| 0 <= k < existing.len() && existing[k] == c;
            assert(all[k] == c);
        } else {
            wanted.lemma_filter_contains(lacks, i);
            assert(more.contains(c));
            let k = choose|k: int| 0 <= k < more.len() && more[k] == c;
            assert(all[existing.len() + k] == c);
        }
    }
    lemma_filter_none(wanted, still);
}

proof fn lemma_filter_none(s: Seq<Seq<char>>, f: spec_fn(Seq<char>) -> bool)
    requires
        forall|i: int| 0 <= i < s.len() ==> !f(#[trigger] s[i]),
    ensures
        s.filter(f).len() == 0,
    decreases s.len(),
{
    reveal(Seq::filter);
    if s.len() > 0 {
        let t = s.drop_last();
        assert forall|i: int| 0 <= i < t.len() implies !f(#[trigger] t[i]) by {
            assert(t[i] == s[i]);
        }
        assert(!f(s[s.len() - 1]));
        lemma_filter_none(t, f);
    }
}

/// Checks that every row belongs to a registered model.
fn check_owners<R: OwnedRow>(rows: &Vec<R>, models: &Vec<ModelRecord>) -> (r: bool)
    ensures
        r == forall|i: int|
            0 <= i < rows@.len() ==> row_of(models@, (#[trigger] rows@[i]).owner()) is Some,
{
    let mut i: usize = 0;
    while i < rows.len()
        invariant
            i <= rows.len(),
            forall|k: int|
                0 <= k < i ==> row_of(models@, (#[trigger] rows@[k]).owner()) is Some,
        decreases rows.len() - i,
    {
        if find_row(models, rows[i].owner_text()).is_none() {
            assert(row_of(models@, rows@[i as int].owner()) is None);
            return false;
        }
        i += 1;
    }
    true
}

impl Registry {
    fn check_models(&self) -> (r: bool)
        ensures
            r == self.models_distinct(),
    {
        if !check_one_row_each(&self.models) {
            return false;
        }
        let mut i: usize = 0;
        while i < self.models.len()
            invariant
                i <= self.models.len(),
                forall|a: int, b: int|
                    0 <= a < i && a < b < self.models@.len() ==> (#[trigger] self.models@[a]).path@
                        != (#[trigger] self.models@[b]).path@,
            decreases self.models.len() - i,
        {
            let mut j: usize = i + 1;
            while j < self.models.len()
                invariant
                    i < j <= self.models.len(),
                    forall|b: int|
                        i < b < j ==> self.models@[i as int].path@ != (
                        #[trigger] self.models@[b]).path@,
                decreases self.models.len() - j,
            {
                if same_text(self.models[i].path.as_str(), self.models[j].path.as_str()) {
                    assert(self.models@[i as int].path@ == self.models@[j as int].path@);
                    return false;
                }
                j += 1;
            }
            i += 1;
        }
        true
    }

    fn check_evals(&self) -> (r: bool)
        ensures
            r == self.evals_ordered(),
    {
        let mut i: usize = 0;
        while i < self.evals.len()
            invariant
                i <= self.evals.len(),
                forall|a: int, b: int|
                    0 <= a < b < i ==> (#[trigger] self.evals@[a]).id < (
                    #[trigger] self.evals@[b]).id,
                forall|a: int| 0 <= a < i ==> (#[trigger] self.evals@[a]).id < self.next_eval_id,
            decreases self.evals.len() - i,
        {
            if self.evals[i].id >= self.next_eval_id {
                assert(self.evals@[i as int].id >= self.next_eval_id);
                return false;
            }
            if i > 0 && self.evals[i - 1].id >= self.evals[i].id {
                assert(self.evals@[i - 1].id >= self.evals@[i as int].id);
                return false;
            }
            i += 1;
        }
        true
    }

    fn check_checkpoints(&self) -> (r: bool)
        ensures
            r == self.checkpoints_ordered(),
    {
        let mut i: usize = 0;
        while i < self.checkpoint_grids.len()
            invariant
                i <= self.checkpoint_grids.len(),
                forall|a: int, b: int|
                    0 <= a < b < i ==> earlier(
                        #[trigger] self.checkpoint_grids@[a],
                        #[trigger] self.checkpoint_grids@[b],
                    ),
                forall|a: int|
                    0 <= a < i ==> (#[trigger] self.checkpoint_grids@[a]).id
                        < self.next_checkpoint_id,
            decreases self.checkpoint_grids.len() - i,
        {
            let c: &CheckpointGridRecord = &self.checkpoint_grids[i];
            if c.id >= self.next_checkpoint_id {
                assert(self.checkpoint_grids@[i as int].id >= self.next_checkpoint_id);
                return false;
            }
            if i > 0 {
                let p: &CheckpointGridRecord = &self.checkpoint_grids[i - 1];
                if !(p.epoch < c.epoch || (p.epoch == c.epoch && p.id < c.id)) {
                    assert(!earlier(
                        self.checkpoint_grids@[i - 1],
                        self.checkpoint_grids@[i as int],
                    ));
                    return false;
                }
            }
            i += 1;
        }
        true
    }

    fn check_trainings(&self) -> (r: bool)
        ensures
            r == self.trainings_distinct(),
    {
        let mut i: usize = 0;
        while i < self.trainings.len()
            invariant
                i <= self.trainings.len(),
                forall|a: int, b: int|
                    0 <= a < b < i ==> !same_training(
                        #[trigger] self.trainings@[a],
                        (#[trigger] self.trainings@[b]).model_id@,
                        self.trainings@[b].kind@,
                    ),
                forall|a: int, b: int|
                    0 <= a < b < i ==> (#[trigger] self.trainings@[a]).id < (
                    #[trigger] self.trainings@[b]).id,
                forall|a: int|
                    0 <= a < i ==> (#[trigger] self.trainings@[a]).id < self.next_training_id,
            decreases self.trainings.len() - i,
        {
            if self.trainings[i].id >= self.next_training_id {
                assert(self.trainings@[i as int].id >= self.next_training_id);
                return false;
            }
            if i > 0 && self.trainings[i - 1].id >= self.trainings[i].id {
                assert(self.trainings@[i - 1].id >= self.trainings@[i as int].id);
                return false;
            }
            let mut j: usize = 0;
            while j < i
                invariant
                    j <= i,
                    i < self.trainings.len(),
                    forall|a: int|
                        0 <= a < j ==> !same_training(
                            #[trigger] self.trainings@[a],
                            self.trainings@[i as int].model_id@,
                            self.trainings@[i as int].kind@,
                        ),
                decreases i - j,
            {
                if same_text(
                    self.trainings[j].model_id.as_str(),
                    self.trainings[i].model_id.as_str(),
                ) && same_text(self.trainings[j].kind.as_str(), self.trainings[i].kind.as_str()) {
                    assert(same_training(
                        self.trainings@[j as int],
                        self.trainings@[i as int].model_id@,
                        self.trainings@[i as int].kind@,
                    ));
                    return false;
                }
                j += 1;
            }
            i += 1;
        }
        true
    }

    /// Whether the tables, as they were read from a store, are those of a
    /// registry.
    pub fn is_consistent(&self) -> (r: bool)
        ensures
            r == self.well_formed(),
    {
        self.check_models() && self.check_evals() && check_one_row_each(&self.eval_grids)
            && self.check_checkpoints() && check_one_row_each(&self.jacobian_lens_results)
            && self.check_trainings() && check_owners(&self.eval_grids, &self.models)
            && check_owners(&self.checkpoint_grids, &self.models) && check_owners(
            &self.jacobian_lens_results,
            &self.models,
        )
    }

    /// Registers a list of models one after the other, and says how many.
    /// A model of the list stays as it was registered unless a later one has
    /// its id or its path. A model that was there and is not displaced keeps
    /// its rows and the time of its creation, but not its analysis if it is
    /// registered again.
    pub fn register_all(&mut self, recs: &Vec<ModelRecord>) -> (count: usize)
        requires
            old(self).well_formed(),
        ensures
            final(self).well_formed(),
            count == recs@.len(),
            forall|k: int|
                0 <= k < recs@.len() && stands(recs@, k, recs@.len() as int) ==> registered_as(
                    final(self).model((#[trigger] recs@[k]).id@),
                    recs@[k]@,
                ),
            forall|x: Seq<char>|
                !touched(recs@, recs@.len() as int, x) && !(old(self).model(x) matches Some(m)
                    && path_taken(recs@, recs@.len() as int, m.path)) ==> #[trigger] final(self).model(
                    x,
                ) == old(self).model(x),
            final(self).rows_after_list(old(self), recs@, recs@.len() as int),
    {
        let mut i: usize = 0;
        while i < recs.len()
            invariant
                i <= recs.len(),
                self.well_formed(),
                self.rows_after_list(old(self), recs@, i as int),
                forall|k: int|
                    0 <= k < i && stands(recs@, k, i as int) ==> registered_as(
                        self.model((#[trigger] recs@[k]).id@),
                        recs@[k]@,
                    ),
                forall|x: Seq<char>|
                    !touched(recs@, i as int, x) && !(old(self).model(x) matches Some(m)
                        && path_taken(recs@, i as int, m.path)) ==> #[trigger] self.model(x)
                        == old(self).model(x),
            decreases recs.len() - i,
        {
            let ghost mid = *self;
            let ghost r = recs@[i as int];
            self.register_model(&recs[i]);
            proof {
                lemma_rows_after_one_more(*old(self), mid, *self, recs@, i as int);
                assert forall|k: int| 0 <= k < i + 1 && stands(recs@, k, i + 1) implies registered_as(
                    self.model((#[trigger] recs@[k]).id@),
                    recs@[k]@,
                ) by {
                    let x = recs@[k].id@;
                    assert(self.model(x) == if x == r.id@ {
                        Some(updated_model(mid.model(x), r@))
                    } else if mid.displaced(r.id@, r.path@, x) {
                        None
                    } else {
                        mid.model(x)
                    });
                    if k < i {
                        assert(stands(recs@, k, i as int)) by {
                            assert forall|j: int| k < j < i implies (#[trigger] recs@[j]).id@
                                != recs@[k].id@ && recs@[j].path@ != recs@[k].path@ by {
                                assert(k < j < i + 1);
                            }
                        }
                        assert(registered_as(mid.model(x), recs@[k]@));
                        assert(r.id@ != recs@[k].id@ && r.path@ != recs@[k].path@);
                    }
                }
                assert forall|x: Seq<char>|
                    !touched(recs@, i + 1, x) && !(old(self).model(x) matches Some(m) && path_taken(
                        recs@,
                        i + 1,
                        m.path,
                    )) implies #[trigger] self.model(x) == old(self).model(x) by {
                    assert(!touched(recs@, i as int, x)) by {
                        if touched(recs@, i as int, x) {
                            let k = choose|k: int| 0 <= k < i && (#[trigger] recs@[k]).id@ == x;
                            assert(recs@[k].id@ == x);
                        }
                    }
                    if let Some(m) = old(self).model(x) {
                        assert(!path_taken(recs@, i as int, m.path)) by {
                            if path_taken(recs@, i as int, m.path) {
                                let k = choose|k: int|
                                    0 <= k < i && (#[trigger] recs@[k]).path@ == m.path;
                                assert(recs@[k].path@ == m.path);
                            }
                        }
                    }
                    assert(mid.model(x) == old(self).model(x));
                    assert(r.id@ != x) by {
                        assert(recs@[i as int].id@ == r.id@);
                    }
                    if mid.displaced(r.id@, r.path@, x) {
                        let m = old(self).model(x)->0;
                        assert(recs@[i as int].path@ == m.path);
                        assert(path_taken(recs@, i + 1, m.path));
                    }
                }
            }
            i += 1;
        }
        i
    }
}

/// Whether none of the records behind `k`, up to `n`, has its id or its path.
pub open spec fn stands(recs: Seq<ModelRecord>, k: int, n: int) -> bool {
    forall|j: int|
        k < j < n ==> (#[trigger] recs[j]).id@ != recs[k].id@ && recs[j].path@ != recs[k].path@
}

/// Whether one of the first `n` records has the id `x`.
pub open spec fn touched(recs: Seq<ModelRecord>, n: int, x: Seq<char>) -> bool {
    exists|k: int| 0 <= k < n && (#[trigger] recs[k]).id@ == x
}

/// Whether one of the first `n` records has the path `p`.
pub open spec fn path_taken(recs: Seq<ModelRecord>, n: int, p: Seq<char>) -> bool {
    exists|k: int| 0 <= k < n && (#[trigger] recs[k]).path@ == p
}

/// The model with the id `x` after the first `n` records of a list were
/// registered one after the other.
pub open spec fn model_after(
    before: Registry,
    recs: Seq<ModelRecord>,
    n: int,
    x: Seq<char>,
) -> Option<ModelView>
    decreases n,
{
    if n <= 0 {
        before.model(x)
    } else {
        let m = model_after(before, recs, n - 1, x);
        if x == recs[n - 1].id@ {
            Some(updated_model(m, recs[n - 1]@))
        } else if takes_path_of(recs[n - 1], m) {
            None
        } else {
            m
        }
    }
}

/// Whether a record has the path of a model.
pub open spec fn takes_path_of(rec: ModelRecord, m: Option<ModelView>) -> bool {
    m matches Some(v) && v.path == rec.path@
}

/// Whether one of the first `n` records of a list displaces the model with the
/// id `x`: it has the path which that model has by then, under another id.
pub open spec fn displaced_by_list(
    before: Registry,
    recs: Seq<ModelRecord>,
    n: int,
    x: Seq<char>,
) -> bool {
    exists|k: int|
        0 <= k < n && x != (#[trigger] recs[k]).id@ && takes_path_of(
            recs[k],
            model_after(before, recs, k, x),
        )
}

impl Registry {
    /// What registering the first `n` records of a list one after the other
    /// makes of a registry: the rows of displaced models go, and the analyses
    /// of registered ones. All other rows stay, all trainings do, and ids go on
    /// where they were. A model that is never displaced keeps the time of its
    /// creation.
    pub open spec fn rows_after_list(
        &self,
        before: &Registry,
        recs: Seq<ModelRecord>,
        n: int,
    ) -> bool {
        &&& forall|x: Seq<char>| #[trigger] self.model(x) == model_after(*before, recs, n, x)
        &&& forall|x: Seq<char>|
            before.model(x) is Some && !displaced_by_list(*before, recs, n, x) ==> (
            #[trigger] self.model(x)) is Some && self.model(x)->0.created_at == before.model(
                x,
            )->0.created_at
        &&& forall|x: Seq<char>|
            #[trigger] rows_of(self.evals@, x) == if displaced_by_list(*before, recs, n, x) {
                Seq::empty()
            } else {
                rows_of(before.evals@, x)
            }
        &&& forall|x: Seq<char>|
            #[trigger] row_of(self.eval_grids@, x) == if displaced_by_list(*before, recs, n, x) {
                None
            } else {
                row_of(before.eval_grids@, x)
            }
        &&& forall|x: Seq<char>|
            #[trigger] rows_of(self.checkpoint_grids@, x) == if displaced_by_list(
                *before,
                recs,
                n,
                x,
            ) {
                Seq::empty()
            } else {
                rows_of(before.checkpoint_grids@, x)
            }
        &&& forall|x: Seq<char>|
            #[trigger] row_of(self.jacobian_lens_results@, x) == if touched(recs, n, x)
                || displaced_by_list(*before, recs, n, x) {
                None
            } else {
                row_of(before.jacobian_lens_results@, x)
            }
        &&& self.trainings == before.trainings
        &&& self.next_eval_id == before.next_eval_id
        &&& self.next_checkpoint_id == before.next_checkpoint_id
        &&& self.next_training_id == before.next_training_id
    }
}

/// Registering one record more after a part of a list.
proof fn lemma_rows_after_one_more(
    before: Registry,
    mid: Registry,
    after: Registry,
    recs: Seq<ModelRecord>,
    i: int,
)
    requires
        0 <= i < recs.len(),
        mid.rows_after_list(&before, recs, i),
        after.rows_after_registering(&mid, recs[i].id@, recs[i].path@),
        forall|x: Seq<char>|
            #[trigger] after.model(x) == if x == recs[i].id@ {
                Some(updated_model(mid.model(x), recs[i]@))
            } else if mid.displaced(recs[i].id@, recs[i].path@, x) {
                None
            } else {
                mid.model(x)
            },
    ensures
        after.rows_after_list(&before, recs, i + 1),
{
    let r = recs[i];
    assert forall|x: Seq<char>|
        #![trigger displaced_by_list(before, recs, i + 1, x)]
        #![trigger after.model(x)]
        #![trigger rows_of(after.evals@, x)]
        #![trigger row_of(after.eval_grids@, x)]
        #![trigger rows_of(after.checkpoint_grids@, x)]
        #![trigger row_of(after.jacobian_lens_results@, x)]
        displaced_by_list(before, recs, i + 1, x) == (displaced_by_list(before, recs, i, x)
            || mid.displaced(r.id@, r.path@, x)) && touched(recs, i + 1, x) == (touched(recs, i, x)
            || x == r.id@) by {
        assert(mid.model(x) == model_after(before, recs, i, x));
        if displaced_by_list(before, recs, i, x) {
            let k = choose|k: int|
                0 <= k < i && x != (#[trigger] recs[k]).id@ && takes_path_of(
                    recs[k],
                    model_after(before, recs, k, x),
                );
            assert(x != recs[k].id@);
        }
        if mid.displaced(r.id@, r.path@, x) {
            assert(x != recs[i].id@);
        }
        if touched(recs, i, x) {
            let k = choose|k: int| 0 <= k < i && (#[trigger] recs[k]).id@ == x;
            assert(recs[k].id@ == x);
        }
        if x == r.id@ {
            assert(recs[i].id@ == x);
        }
    }
    assert forall|x: Seq<char>| #[trigger] after.model(x) == model_after(before, recs, i + 1, x) by {
        assert(mid.model(x) == model_after(before, recs, i, x));
    }
    assert forall|x: Seq<char>|
        before.model(x) is Some && !displaced_by_list(before, recs, i + 1, x) implies (
    #[trigger] after.model(x)) is Some && after.model(x)->0.created_at == before.model(
        x,
    )->0.created_at by {
        assert(mid.model(x) is Some);
    }
    assert forall|x: Seq<char>|
        #[trigger] row_of(after.jacobian_lens_results@, x) == if touched(recs, i + 1, x)
            || displaced_by_list(before, recs, i + 1, x) {
            None
        } else {
            row_of(before.jacobian_lens_results@, x)
        } by {
        assert(row_of(mid.jacobian_lens_results@, x) == if touched(recs, i, x)
            || displaced_by_list(before, recs, i, x) {
            None
        } else {
            row_of(before.jacobian_lens_results@, x)
        });
    }
}

/// Whether a model is registered as `rec` says, with whatever time of creation.
pub open spec fn registered_as(m: Option<ModelView>, rec: ModelView) -> bool {
    m matches Some(v) && v == (ModelView { created_at: v.created_at, ..rec })
}

/// A model is registered exactly where a record has its id, and it is that
/// record; its range is the one of the record.
pub proof fn law_models_are_found_by_id(reg: Registry, id: Seq<char>, k: int)
    requires
        reg.well_formed(),
        0 <= k < reg.models@.len(),
    ensures
        reg.models@[k].id@ == id ==> reg.registered(id) && reg.model(id) == Some(reg.models@[k]@)
            && reg.range_of(id) == Some((reg.models@[k].eval_min, reg.models@[k].eval_max)),
        !reg.registered(id) ==> reg.models@[k].id@ != id && reg.model(id) is None && reg.range_of(
            id,
        ) is None,
        reg.registered(id) ==> exists|i: int|
            0 <= i < reg.models@.len() && (#[trigger] reg.models@[i]).id@ == id,
{
    law_row_of_a_model(reg.models@, id, k);
    if reg.registered(id) {
        let m = row_of(reg.models@, id)->0;
        let i = choose|i: int| 0 <= i < reg.models@.len() && reg.models@[i] == m;
        assert(reg.models@[i].id@ == id);
    }
}

/// The newest evaluation that counts is one of the rows; it was made for the
/// range that is asked for, or for none; and no other row that counts so is
/// newer, by time and then by id. Without such a row there is none.
pub proof fn law_newest_evaluation(
    rows: Seq<EvalRecord>,
    range: Option<(i64, i64)>,
    r: Option<EvalRecord>,
    any: Option<EvalRecord>,
    k: int,
)
    requires
        is_newest(rows, Some(range), r),
        is_newest(rows, None, any),
        0 <= k < rows.len(),
    ensures
        r matches Some(e) ==> rows.contains(e) && ((e.eval_min is None && e.eval_max is None) || (
        e.eval_min is Some && e.eval_max is Some && range == Some((e.eval_min->0, e.eval_max->0)))),
        ({
            let x = rows[k];
            let fits = (x.eval_min is None && x.eval_max is None) || (x.eval_min is Some
                && x.eval_max is Some && range == Some((x.eval_min->0, x.eval_max->0)));
            fits ==> (r matches Some(e) && (x.run_at < e.run_at || (x.run_at == e.run_at && x.id
                <= e.id)))
        }),
        any matches Some(e) && rows.contains(e) && (rows[k].run_at < e.run_at || (rows[k].run_at
            == e.run_at && rows[k].id <= e.id)),
{
    let x = rows[k];
    assert(counts(x, None));
    if range_matches(x, range) {
        assert(counts(rows[k], Some(range)));
    }
}

/// The newest training of a model is one of its rows, and no other is newer, by
/// time and then by id.
pub proof fn law_newest_training(
    rows: Seq<TrainingRecord>,
    r: Option<TrainingRecord>,
    k: int,
)
    requires
        is_newest_training(rows, r),
        0 <= k < rows.len(),
    ensures
        r matches Some(t) && rows.contains(t) && (rows[k].trained_at < t.trained_at || (
        rows[k].trained_at == t.trained_at && rows[k].id <= t.id)),
{
    assert(training_no_newer(rows[k], r->0));
}

/// An evaluation row holds the tallies of the report, the seed, the range and
/// the time.
pub proof fn law_evaluation_row_holds_the_report(
    e: EvalRecord,
    model_id: Seq<char>,
    report: EvalReport,
    seed: Option<u64>,
    range: Option<(i64, i64)>,
    now: i64,
)
    requires
        row_holds(e, model_id, report, seed, range, now),
    ensures
        e.model_id@ == model_id,
        report.total <= i64::MAX ==> e.total == report.total,
        report.correct <= i64::MAX ==> e.correct == report.correct,
        report.total_plus <= i64::MAX ==> e.total_plus == report.total_plus,
        report.correct_plus <= i64::MAX ==> e.correct_plus == report.correct_plus,
        report.total_minus <= i64::MAX ==> e.total_minus == report.total_minus,
        report.correct_minus <= i64::MAX ==> e.correct_minus == report.correct_minus,
        seed is None ==> e.seed is None,
        seed matches Some(s) ==> e.seed is Some && (s <= i64::MAX ==> e.seed->0 == s),
        range is None ==> e.eval_min is None && e.eval_max is None,
        range matches Some((lo, hi)) ==> e.eval_min == Some(lo) && e.eval_max == Some(hi),
        e.run_at == now,
{
}

/// A snapshot row holds what was recorded.
pub proof fn law_snapshot_row_holds_what_was_recorded(
    c: CheckpointGridRecord,
    model_id: Seq<char>,
    epoch: usize,
    loss: u64,
    eval_min: i64,
    eval_max: i64,
    report_json: Seq<char>,
    correct: i64,
    total: i64,
    now: i64,
)
    requires
        snapshot_holds(
            c,
            model_id,
            epoch,
            loss,
            eval_min,
            eval_max,
            report_json,
            correct,
            total,
            now,
        ),
    ensures
        c.model_id@ == model_id && c.report_json@ == report_json,
        epoch <= i64::MAX ==> c.epoch == epoch,
        c.loss == loss && c.eval_min == eval_min && c.eval_max == eval_max,
        c.correct == correct && c.total == total && c.run_at == now,
{
}

/// A training row holds what the last update said, and of what it did not know
/// what was known before.
pub proof fn law_training_row_holds_the_update(
    t: TrainingRecord,
    before: Option<TrainingRecord>,
    model_id: Seq<char>,
    kind: Seq<char>,
    update: TrainingUpdate,
    now: i64,
)
    requires
        training_updated(t, before, model_id, kind, update, now),
    ensures
        t.model_id@ == model_id && t.kind@ == kind,
        update.epochs_run <= i64::MAX ==> t.epochs_run == update.epochs_run,
        t.early_stopped == update.early_stopped && t.final_loss == update.final_loss,
        t.loss_trajectory_json@ == update.loss_trajectory_json@,
        t.rft_summary_json@ == update.rft_summary_json@,
        t.trained_at == now,
        update.train_correct is Some ==> t.train_correct == update.train_correct,
        update.train_total is Some ==> t.train_total == update.train_total,
        update.prompt_min is Some ==> t.prompt_min == update.prompt_min,
        update.prompt_max is Some ==> t.prompt_max == update.prompt_max,
        update.prompt_ops matches Some(o) ==> (t.prompt_ops matches Some(p) && p@ == o@),
        before is None ==> {
            &&& update.train_correct is None ==> t.train_correct is None
            &&& update.train_total is None ==> t.train_total is None
            &&& update.prompt_min is None ==> t.prompt_min is None
            &&& update.prompt_max is None ==> t.prompt_max is None
            &&& update.prompt_ops is None ==> t.prompt_ops is None
        },
{
}

/// The training row of a model and a kind is the one that names both, and there
/// is none exactly where no row does.
pub proof fn law_training_is_found_by_model_and_kind(
    reg: Registry,
    model_id: Seq<char>,
    kind: Seq<char>,
    k: int,
)
    requires
        reg.well_formed(),
        0 <= k < reg.trainings@.len(),
    ensures
        ({
            let found = training_of(reg.trainings@, model_id, kind);
            let x = reg.trainings@[k];
            &&& x.model_id@ == model_id && x.kind@ == kind ==> found == Some(x)
            &&& found is None ==> x.model_id@ != model_id || x.kind@ != kind
            &&& found matches Some(t) ==> t.model_id@ == model_id && t.kind@ == kind
        }),
{
    let rows = reg.trainings@;
    lemma_training_of(rows, model_id, kind);
    let found = training_of(rows, model_id, kind);
    if same_training(rows[k], model_id, kind) && found is Some {
        let j = choose|j: int| 0 <= j < rows.len() && rows[j] == found->0;
        if j < k {
            assert(!same_training(rows[j], rows[k].model_id@, rows[k].kind@));
        } else if k < j {
            assert(!same_training(rows[k], rows[j].model_id@, rows[j].kind@));
        }
    }
}

/// Registering a model takes the rows of another model that has its path, and
/// leaves all rows of any other.
pub proof fn law_registering_touches_no_other(
    before: Registry,
    after: Registry,
    id: Seq<char>,
    path: Seq<char>,
    other: Seq<char>,
)
    requires
        after.rows_after_registering(&before, id, path),
        other != id,
    ensures
        (before.model(other) matches Some(m) && m.path == path) ==> {
            &&& rows_of(after.evals@, other).len() == 0
            &&& row_of(after.eval_grids@, other) is None
            &&& rows_of(after.checkpoint_grids@, other).len() == 0
            &&& row_of(after.jacobian_lens_results@, other) is None
        },
        !(before.model(other) matches Some(m) && m.path == path) ==> {
            &&& rows_of(after.evals@, other) == rows_of(before.evals@, other)
            &&& row_of(after.eval_grids@, other) == row_of(before.eval_grids@, other)
            &&& rows_of(after.checkpoint_grids@, other) == rows_of(before.checkpoint_grids@, other)
            &&& row_of(after.jacobian_lens_results@, other) == row_of(
                before.jacobian_lens_results@,
                other,
            )
        },
        after.trainings == before.trainings,
        after.next_eval_id == before.next_eval_id,
        after.next_checkpoint_id == before.next_checkpoint_id,
        after.next_training_id == before.next_training_id,
{
    assert(before.displaced(id, path, other) <==> (before.model(other) matches Some(m) && m.path
        == path));
}

/// Registering anew takes everything from the record, and registering again all
/// but the time of creation.
pub proof fn law_registering_takes_the_record(old_model: ModelView, rec: ModelView)
    ensures
        updated_model(None, rec) == rec,
        updated_model(Some(old_model), rec).created_at == old_model.created_at,
        updated_model(Some(old_model), ModelView { created_at: old_model.created_at, ..rec })
            == (ModelView { created_at: old_model.created_at, ..rec }),
        updated_model(Some(old_model), rec).updated_at == rec.updated_at,
        updated_model(Some(old_model), rec).id == rec.id,
        updated_model(Some(old_model), rec).path == rec.path,
        updated_model(Some(old_model), rec).eval_min == rec.eval_min,
        updated_model(Some(old_model), rec).eval_max == rec.eval_max,
{
}

/// A variant without a link is linked to the model whose id stands before its
/// suffix, where that one is known. Nothing else changes, and a model that is
/// linked, or is no variant, or whose base is not known, stays as it is.
pub proof fn law_variants_are_linked_to_their_base(
    m: ModelView,
    base: Seq<char>,
    known: spec_fn(Seq<char>) -> bool,
)
    ensures
        base.len() > 0 && (m.id == base + "-rft"@ || m.id == base + "-grpo"@)
            && m.base_model_id is None && known(base) ==> linked(m, known) == (ModelView {
            base_model_id: Some(base),
            ..m
        }),
        base.len() > 0 && (m.id == base + "-rft"@ || m.id == base + "-grpo"@) && !known(base)
            ==> linked(m, known) == m,
        m.base_model_id is Some ==> linked(m, known) == m,
        linked(m, known) != m ==> (linked(m, known).base_model_id matches Some(b) && b.len() > 0 && (
        m.id == b + "-rft"@ || m.id == b + "-grpo"@) && known(b)),
{
    law_stripping_is_exact(m.id, base);
    if let Some(b) = base_id_of(m.id) {
        law_stripping_is_exact(m.id, b);
    }
}

/// Columns are asked for one by one: a wanted one is missing exactly where it is
/// not there.
pub proof fn law_missing_columns_one_by_one(
    existing: Seq<Seq<char>>,
    wanted: Seq<Seq<char>>,
    c: Seq<char>,
)
    ensures
        missing(existing, Seq::empty()) == Seq::<Seq<char>>::empty(),
        existing.contains(c) ==> missing(existing, wanted.push(c)) == missing(existing, wanted),
        !existing.contains(c) ==> missing(existing, wanted.push(c)) == missing(
            existing,
            wanted,
        ).push(c),
{
    reveal(Seq::filter);
    assert(wanted.push(c).drop_last() =~= wanted);
}

/// Snapshots are listed by epoch and then by id, models by id, and a registry
/// has no two models with the same id or path.
pub proof fn law_lists_are_in_order(
    reg: Registry,
    snapshots: Seq<CheckpointGridRecord>,
    models: Seq<ModelRecord>,
    i: int,
    j: int,
)
    requires
        reg.well_formed(),
        in_epoch_order(snapshots),
        sorted_by_id(models),
        0 <= i < j,
    ensures
        j < snapshots.len() ==> snapshots[i].epoch < snapshots[j].epoch || (snapshots[i].epoch
            == snapshots[j].epoch && snapshots[i].id < snapshots[j].id),
        j < models.len() ==> text_less(models[i].id@, models[j].id@),
        j < reg.models@.len() ==> reg.models@[i].id@ != reg.models@[j].id@ && reg.models@[i].path@
            != reg.models@[j].path@,
        j < reg.evals@.len() ==> reg.evals@[i].id < reg.evals@[j].id,
        j < reg.trainings@.len() ==> reg.trainings@[i].id < reg.trainings@[j].id && (
        reg.trainings@[i].model_id@ != reg.trainings@[j].model_id@ || reg.trainings@[i].kind@
            != reg.trainings@[j].kind@),
{
    if j < snapshots.len() {
        assert(earlier(snapshots[i], snapshots[j]));
    }
    if j < models.len() {
        assert(text_less(models[i].id@, models[j].id@));
    }
    if j < reg.models@.len() {
        assert(reg.models@[i].owner() != reg.models@[j].owner());
        assert(reg.models@[i].path@ != reg.models@[j].path@);
    }
    if j < reg.evals@.len() {
        assert(reg.evals@[i].id < reg.evals@[j].id);
    }
    if j < reg.trainings@.len() {
        assert(reg.trainings@[i].id < reg.trainings@[j].id);
        assert(!same_training(
            reg.trainings@[i],
            reg.trainings@[j].model_id@,
            reg.trainings@[j].kind@,
        ));
    }
}

/// A list is registered record by record: the last record has the last word on
/// its id, takes the place of a model with its path, and leaves every other model
/// as the records before it made it.
pub proof fn law_last_record_has_the_last_word(
    before: Registry,
    recs: Seq<ModelRecord>,
    r: ModelRecord,
    x: Seq<char>,
)
    ensures
        model_after(before, Seq::empty(), 0, x) == before.model(x),
        ({
            let n = recs.len() as int;
            let earlier = model_after(before, recs, n, x);
            let now = model_after(before, recs.push(r), n + 1, x);
            &&& x == r.id@ && earlier is None ==> now == Some(r@)
            &&& x == r.id@ && earlier is Some ==> now == Some(
                ModelView { created_at: earlier->0.created_at, ..r@ },
            )
            &&& x != r.id@ && earlier is Some && earlier->0.path == r.path@ ==> now is None
            &&& x != r.id@ && !(earlier is Some && earlier->0.path == r.path@) ==> now == earlier
        }),
{
    lemma_model_after_prefix(before, recs, recs.push(r), recs.len() as int, x);
}

proof fn lemma_model_after_prefix(
    before: Registry,
    a: Seq<ModelRecord>,
    b: Seq<ModelRecord>,
    n: int,
    x: Seq<char>,
)
    requires
        0 <= n <= a.len(),
        n <= b.len(),
        forall|i: int| 0 <= i < n ==> #[trigger] a[i] == b[i],
    ensures
        model_after(before, a, n, x) == model_after(before, b, n, x),
    decreases n,
{
    if n > 0 {
        lemma_model_after_prefix(before, a, b, n - 1, x);
        assert(a[n - 1] == b[n - 1]);
    }
}

} // verus!
