//! The rows that the registry keeps beside the models.
use crate::record::ModelRecord;
use crate::table::OwnedRow;
use crate::text::clone_opt;
use vstd::prelude::*;

verus! {

/// The summary of an evaluation.
#[derive(Debug, Clone)]
pub struct EvalRecord {
    pub id: i64,
    pub model_id: String,
    pub correct: i64,
    pub total: i64,
    pub correct_plus: i64,
    pub total_plus: i64,
    pub correct_minus: i64,
    pub total_minus: i64,
    pub seed: Option<i64>,
    /// The operand range of the model when it was evaluated, if it was known.
    pub eval_min: Option<i64>,
    pub eval_max: Option<i64>,
    pub run_at: i64,
}

/// The latest exhaustive evaluation of a model.
#[derive(Debug, Clone)]
pub struct EvalGridRecord {
    pub model_id: String,
    pub eval_min: i64,
    pub eval_max: i64,
    pub report_json: String,
    pub correct: i64,
    pub total: i64,
    pub run_at: i64,
}

/// An exhaustive evaluation in the course of training. The loss is held by the
/// bits of its 64-bit floating-point form.
#[derive(Debug, Clone)]
pub struct CheckpointGridRecord {
    pub id: i64,
    pub model_id: String,
    pub epoch: i64,
    pub loss: u64,
    pub eval_min: i64,
    pub eval_max: i64,
    pub report_json: String,
    pub correct: i64,
    pub total: i64,
    pub run_at: i64,
}

/// What is shown of an exhaustive evaluation without its cells.
#[derive(Debug, Clone)]
pub struct EvalGridSummary {
    pub eval_min: i64,
    pub eval_max: i64,
    pub correct: i64,
    pub total: i64,
    pub run_at: i64,
}

impl From<&EvalGridRecord> for EvalGridSummary {
    fn from(r: &EvalGridRecord) -> (s: EvalGridSummary) {
        EvalGridSummary {
            eval_min: r.eval_min,
            eval_max: r.eval_max,
            correct: r.correct,
            total: r.total,
            run_at: r.run_at,
        }
    }
}

impl vstd::std_specs::convert::FromSpecImpl<&EvalGridRecord> for EvalGridSummary {
    open spec fn obeys_from_spec() -> bool {
        true
    }

    open spec fn from_spec(r: &EvalGridRecord) -> EvalGridSummary {
        EvalGridSummary {
            eval_min: r.eval_min,
            eval_max: r.eval_max,
            correct: r.correct,
            total: r.total,
            run_at: r.run_at,
        }
    }
}

/// The latest analysis of the layers of a model.
#[derive(Debug, Clone)]
pub struct JacobianLensRecord {
    pub model_id: String,
    pub results_json: String,
    pub plot_dir: String,
    pub plot_files: Vec<String>,
    pub computed_at: i64,
}

/// What is shown of an analysis without its results.
#[derive(Debug, Clone)]
pub struct JacobianLensSummary {
    pub computed_at: i64,
}

impl From<&JacobianLensRecord> for JacobianLensSummary {
    fn from(r: &JacobianLensRecord) -> (s: JacobianLensSummary) {
        JacobianLensSummary { computed_at: r.computed_at }
    }
}

impl vstd::std_specs::convert::FromSpecImpl<&JacobianLensRecord> for JacobianLensSummary {
    open spec fn obeys_from_spec() -> bool {
        true
    }

    open spec fn from_spec(r: &JacobianLensRecord) -> JacobianLensSummary {
        JacobianLensSummary { computed_at: r.computed_at }
    }
}

/// An analysis as it is stored: the names of its plots are one JSON text.
#[derive(Debug, Clone)]
pub struct JacobianRow {
    pub model_id: String,
    pub results_json: String,
    pub plot_dir: String,
    pub plot_files: String,
    pub computed_at: i64,
}

/// The metrics of one kind of training of a model. The loss is held by the bits
/// of its 64-bit floating-point form.
#[derive(Debug, Clone)]
pub struct TrainingRecord {
    pub id: i64,
    pub model_id: String,
    /// `sft`, `rft` or `grpo`.
    pub kind: String,
    pub epochs_run: i64,
    pub early_stopped: bool,
    pub final_loss: u64,
    pub loss_trajectory_json: String,
    pub rft_summary_json: String,
    /// How much of the training corpus the model gets right, when computed.
    pub train_correct: Option<i64>,
    pub train_total: Option<i64>,
    /// The operands and operators that prompts were drawn from, where prompts
    /// were drawn.
    pub prompt_min: Option<i64>,
    pub prompt_max: Option<i64>,
    pub prompt_ops: Option<String>,
    pub trained_at: i64,
}

impl OwnedRow for ModelRecord {
    open spec fn owner(&self) -> Seq<char> {
        self.id@
    }

    fn owner_text(&self) -> (r: &str) {
        self.id.as_str()
    }

    fn copy_row(&self) -> (r: Self) {
        ModelRecord {
            id: self.id.clone(),
            path: self.path.clone(),
            model_type: self.model_type.clone(),
            tokenizer: self.tokenizer.clone(),
            vocab_size: self.vocab_size,
            block_size: self.block_size,
            hidden_size: self.hidden_size,
            num_heads: self.num_heads,
            num_blocks: self.num_blocks,
            heads_schedule: self.heads_schedule.clone(),
            aligned_windows: self.aligned_windows,
            dataset: self.dataset.clone(),
            dataset_name: self.dataset_name.clone(),
            eval_min: self.eval_min,
            eval_max: self.eval_max,
            eval_samples: self.eval_samples,
            note: self.note.clone(),
            params_estimate: self.params_estimate,
            base_model_id: clone_opt(&self.base_model_id),
            created_at: self.created_at,
            updated_at: self.updated_at,
        }
    }
}

impl OwnedRow for EvalRecord {
    open spec fn owner(&self) -> Seq<char> {
        self.model_id@
    }

    fn owner_text(&self) -> (r: &str) {
        self.model_id.as_str()
    }

    fn copy_row(&self) -> (r: Self) {
        EvalRecord {
            id: self.id,
            model_id: self.model_id.clone(),
            correct: self.correct,
            total: self.total,
            correct_plus: self.correct_plus,
            total_plus: self.total_plus,
            correct_minus: self.correct_minus,
            total_minus: self.total_minus,
            seed: self.seed,
            eval_min: self.eval_min,
            eval_max: self.eval_max,
            run_at: self.run_at,
        }
    }
}

impl OwnedRow for EvalGridRecord {
    open spec fn owner(&self) -> Seq<char> {
        self.model_id@
    }

    fn owner_text(&self) -> (r: &str) {
        self.model_id.as_str()
    }

    fn copy_row(&self) -> (r: Self) {
        EvalGridRecord {
            model_id: self.model_id.clone(),
            eval_min: self.eval_min,
            eval_max: self.eval_max,
            report_json: self.report_json.clone(),
            correct: self.correct,
            total: self.total,
            run_at: self.run_at,
        }
    }
}

impl OwnedRow for CheckpointGridRecord {
    open spec fn owner(&self) -> Seq<char> {
        self.model_id@
    }

    fn owner_text(&self) -> (r: &str) {
        self.model_id.as_str()
    }

    fn copy_row(&self) -> (r: Self) {
        CheckpointGridRecord {
            id: self.id,
            model_id: self.model_id.clone(),
            epoch: self.epoch,
            loss: self.loss,
            eval_min: self.eval_min,
            eval_max: self.eval_max,
            report_json: self.report_json.clone(),
            correct: self.correct,
            total: self.total,
            run_at: self.run_at,
        }
    }
}

impl OwnedRow for JacobianRow {
    open spec fn owner(&self) -> Seq<char> {
        self.model_id@
    }

    fn owner_text(&self) -> (r: &str) {
        self.model_id.as_str()
    }

    fn copy_row(&self) -> (r: Self) {
        JacobianRow {
            model_id: self.model_id.clone(),
            results_json: self.results_json.clone(),
            plot_dir: self.plot_dir.clone(),
            plot_files: self.plot_files.clone(),
            computed_at: self.computed_at,
        }
    }
}

impl OwnedRow for TrainingRecord {
    open spec fn owner(&self) -> Seq<char> {
        self.model_id@
    }

    fn owner_text(&self) -> (r: &str) {
        self.model_id.as_str()
    }

    fn copy_row(&self) -> (r: Self) {
        TrainingRecord {
            id: self.id,
            model_id: self.model_id.clone(),
            kind: self.kind.clone(),
            epochs_run: self.epochs_run,
            early_stopped: self.early_stopped,
            final_loss: self.final_loss,
            loss_trajectory_json: self.loss_trajectory_json.clone(),
            rft_summary_json: self.rft_summary_json.clone(),
            train_correct: self.train_correct,
            train_total: self.train_total,
            prompt_min: self.prompt_min,
            prompt_max: self.prompt_max,
            prompt_ops: clone_opt(&self.prompt_ops),
            trained_at: self.trained_at,
        }
    }
}

/// A model's row is its own, and every other row that of the model it names.
pub proof fn law_rows_belong_to_the_model_they_name(
    m: ModelRecord,
    e: EvalRecord,
    g: EvalGridRecord,
    c: CheckpointGridRecord,
    j: JacobianRow,
    t: TrainingRecord,
)
    ensures
        m.owner() == m.id@,
        e.owner() == e.model_id@,
        g.owner() == g.model_id@,
        c.owner() == c.model_id@,
        j.owner() == j.model_id@,
        t.owner() == t.model_id@,
{
}

} // verus!
