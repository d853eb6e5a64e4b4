//! The control of a training run: when to save, when to snapshot and when to
//! stop. The epochs themselves are computed outside. Losses are held by the
//! bits of their 32-bit floating-point form.
use crate::list::copy_list;
use crate::list::copy_part;
use vstd::prelude::*;

verus! {

/// The number of epochs over which losses are averaged.
pub const SMOOTH_WINDOW: usize = 20;

/// The number of epochs between two saves.
pub const CHECKPOINT_EPOCHS: usize = 10;

/// The least number of epochs between two snapshots.
pub const MIN_SNAPSHOT_GAP_EPOCHS: usize = 25;

/// The bits of the loss zero.
pub const ZERO_LOSS: u32 = 0;

/// What a training run came to.
#[derive(Debug, Clone)]
pub struct TrainOutcome {
    pub epochs_run: usize,
    pub early_stopped: bool,
    pub final_loss: u32,
    /// The loss of each epoch, in order.
    pub losses: Vec<u32>,
}

/// The last of `losses`, or the loss zero.
pub open spec fn last_loss(losses: Seq<u32>) -> u32 {
    if losses.len() == 0 {
        ZERO_LOSS
    } else {
        losses.last()
    }
}

impl TrainOutcome {
    /// One loss per epoch, and the final loss is the last one, or zero where no
    /// epoch was run.
    pub open spec fn well_formed(&self) -> bool {
        &&& self.epochs_run == self.losses@.len()
        &&& self.final_loss == last_loss(self.losses@)
    }

    /// The outcome of no training.
    pub fn placeholder() -> (r: TrainOutcome)
        ensures
            r.well_formed(),
            r.epochs_run == 0,
            !r.early_stopped,
    {
        TrainOutcome { epochs_run: 0, early_stopped: false, final_loss: ZERO_LOSS, losses: Vec::new() }
    }
}

/// Whether a new best loss at `epoch` is worth a snapshot: the first one always
/// is; a later one needs enough epochs since the last snapshot and a loss that
/// is enough better than at the last snapshot.
pub open spec fn snapshot_due(
    epoch: int,
    last_snapshot_epoch: Option<usize>,
    enough_better: bool,
) -> bool {
    match last_snapshot_epoch {
        None => true,
        Some(last) => epoch - last >= MIN_SNAPSHOT_GAP_EPOCHS && enough_better,
    }
}

/// Whether a new best loss at `epoch` is worth a snapshot. `enough_better` says
/// whether the loss beats that of the last snapshot by the least relative
/// improvement; it does not matter for the first snapshot.
pub fn should_snapshot(
    epoch: usize,
    last_snapshot_epoch: Option<usize>,
    enough_better: bool,
) -> (r: bool)
    ensures
        r == snapshot_due(epoch as int, last_snapshot_epoch, enough_better),
{
    match last_snapshot_epoch {
        None => true,
        Some(last) => epoch.saturating_sub(last) >= MIN_SNAPSHOT_GAP_EPOCHS && enough_better,
    }
}

/// The number of entries at the end of `improved` that are not set.
pub open spec fn stalled(improved: Seq<bool>) -> nat
    decreases improved.len(),
{
    if improved.len() == 0 || improved.last() {
        0
    } else {
        1 + stalled(improved.drop_last())
    }
}

proof fn lemma_stalled_bound(improved: Seq<bool>)
    ensures
        stalled(improved) <= improved.len(),
    decreases improved.len(),
{
    if improved.len() > 0 && !improved.last() {
        lemma_stalled_bound(improved.drop_last());
    }
}

/// The epochs at the end that count as stalled did not improve.
pub proof fn law_stalled_epochs_did_not_improve(improved: Seq<bool>, i: int)
    requires
        improved.len() - stalled(improved) <= i < improved.len(),
    ensures
        0 <= i,
        !improved[i],
    decreases improved.len(),
{
    lemma_stalled_bound(improved);
    if improved.len() > 0 && !improved.last() && i < improved.len() - 1 {
        law_stalled_epochs_did_not_improve(improved.drop_last(), i);
    }
}

/// Epochs at the end that did not improve count as stalled, all of them, and the
/// one before them does not.
pub proof fn law_stall_is_counted(improved: Seq<bool>, k: int)
    requires
        0 <= k <= improved.len(),
        forall|i: int| improved.len() - k <= i < improved.len() ==> !#[trigger] improved[i],
    ensures
        stalled(improved) >= k,
        k < improved.len() && improved[improved.len() - k - 1] ==> stalled(improved) == k,
        k == improved.len() ==> stalled(improved) == k,
    decreases k,
{
    lemma_stalled_bound(improved);
    if k > 0 {
        assert(!improved[improved.len() - 1]);
        let rest = improved.drop_last();
        assert forall|i: int| rest.len() - (k - 1) <= i < rest.len() implies !#[trigger] rest[i] by {
            assert(!improved[i]);
        }
        law_stall_is_counted(rest, k - 1);
        if k < improved.len() {
            assert(rest[rest.len() - (k - 1) - 1] == improved[improved.len() - k - 1]);
        }
    }
}

/// A run stops early exactly when, with a patience, as many epochs as that in a
/// row have not improved by the end.
pub proof fn law_patience_runs_out(run: TrainRun)
    requires
        run.well_formed(),
        run.between_epochs(),
    ensures
        run.early_stopped <==> run.patience > 0 && run.patience <= run.losses@.len() && forall|
            i: int,
        |
            run.losses@.len() - run.patience <= i < run.losses@.len()
                ==> !#[trigger] run.improved@[i],
{
    let n = run.losses@.len() as int;
    let p = run.patience as int;
    lemma_stalled_bound(run.improved@);
    if run.early_stopped {
        assert forall|i: int| n - p <= i < n implies !#[trigger] run.improved@[i] by {
            law_stalled_epochs_did_not_improve(run.improved@, i);
        }
    } else if 0 < p <= n && forall|i: int| n - p <= i < n ==> !#[trigger] run.improved@[i] {
        law_stall_is_counted(run.improved@, p);
    }
}

/// The first new best is always worth a snapshot; a later one is if it is
/// enough better and at least twenty-five epochs have passed since the last.
pub proof fn law_snapshots_are_throttled(epoch: int, last: usize, enough_better: bool)
    ensures
        snapshot_due(epoch, None, enough_better),
        snapshot_due(epoch, Some(last), true) <==> epoch >= last + 25,
        !snapshot_due(epoch, Some(last), false),
{
}

/// An outcome has one loss for each epoch, and its final loss is the last one, or
/// zero where no epoch was run. Snapshots lie at least twenty-five epochs apart.
pub proof fn law_outcome_agrees_with_its_losses(o: TrainOutcome, snapshots: Seq<usize>, i: int)
    requires
        o.well_formed(),
        spaced(snapshots),
        0 < i < snapshots.len(),
    ensures
        o.epochs_run == o.losses@.len(),
        o.losses@.len() > 0 ==> o.final_loss == o.losses@[o.losses@.len() - 1],
        o.losses@.len() == 0 ==> o.final_loss == 0,
        snapshots[i] >= snapshots[i - 1] + 25,
{
}

/// Whether the epochs of snapshots lie far enough apart.
pub open spec fn spaced(snapshots: Seq<usize>) -> bool {
    forall|i: int|
        #![trigger snapshots[i]]
        0 < i < snapshots.len() ==> snapshots[i] - snapshots[i - 1] >= MIN_SNAPSHOT_GAP_EPOCHS
}

/// The gap between snapshots bounds their number: in `epochs` epochs there is
/// at most one in each full or started stretch of `MIN_SNAPSHOT_GAP_EPOCHS`.
pub proof fn law_snapshots_are_few(snapshots: Seq<usize>, epochs: int)
    requires
        spaced(snapshots),
        snapshots.len() > 0 ==> 1 <= snapshots[0] && snapshots.last() <= epochs,
        epochs >= 0,
    ensures
        snapshots.len() <= (epochs + MIN_SNAPSHOT_GAP_EPOCHS - 1) / (MIN_SNAPSHOT_GAP_EPOCHS as int),
{
    if snapshots.len() > 0 {
        lemma_spaced_span(snapshots, snapshots.len() - 1);
    }
}

proof fn lemma_spaced_span(snapshots: Seq<usize>, k: int)
    requires
        spaced(snapshots),
        0 <= k < snapshots.len(),
    ensures
        snapshots[k] - snapshots[0] >= 25 * k,
    decreases k,
{
    if k > 0 {
        lemma_spaced_span(snapshots, k - 1);
        assert(snapshots[k] - snapshots[k - 1] >= MIN_SNAPSHOT_GAP_EPOCHS);
    }
}

/// A training run in progress.
pub struct TrainRun {
    pub num_epochs: usize,
    /// How many epochs in a row may pass without improvement; zero for any
    /// number.
    pub patience: usize,
    pub losses: Vec<u32>,
    pub epochs_no_improve: usize,
    pub last_snapshot_epoch: Option<usize>,
    pub early_stopped: bool,
    /// Whether each judged epoch improved.
    pub improved: Ghost<Seq<bool>>,
    /// The epochs at which a snapshot was taken.
    pub snapshots: Ghost<Seq<usize>>,
}

impl TrainRun {
    /// The counter of stalled epochs is right, the run has stopped early
    /// exactly when it reached the patience, and snapshots are spaced.
    pub open spec fn well_formed(&self) -> bool {
        &&& self.losses@.len() <= self.num_epochs
        &&& self.improved@.len() <= self.losses@.len()
        &&& self.patience > 0 ==> self.epochs_no_improve == stalled(self.improved@)
        &&& self.early_stopped <==> self.patience > 0 && self.epochs_no_improve >= self.patience
        &&& self.epochs_no_improve <= self.patience
        &&& spaced(self.snapshots@)
        &&& match self.last_snapshot_epoch {
            Some(e) => self.snapshots@.len() > 0 && self.snapshots@.last() == e
                && self.snapshots@[0] >= 1 && e <= self.losses@.len(),
            None => self.snapshots@.len() == 0,
        }
    }

    /// Whether the last epoch is still to be judged.
    pub open spec fn open_epoch(&self) -> bool {
        self.improved@.len() + 1 == self.losses@.len()
    }

    /// Whether every epoch was judged.
    pub open spec fn between_epochs(&self) -> bool {
        self.improved@.len() == self.losses@.len()
    }

    /// Starts a run of at most `num_epochs` epochs.
    pub fn start(num_epochs: usize, patience: usize) -> (r: TrainRun)
        ensures
            r.well_formed(),
            r.between_epochs(),
            r.num_epochs == num_epochs,
            r.patience == patience,
            r.losses@.len() == 0,
            r.snapshots@.len() == 0,
            !r.early_stopped,
    {
        TrainRun {
            num_epochs,
            patience,
            losses: Vec::new(),
            epochs_no_improve: 0,
            last_snapshot_epoch: None,
            early_stopped: false,
            improved: Ghost(Seq::empty()),
            snapshots: Ghost(Seq::empty()),
        }
    }

    /// Whether another epoch is to be run.
    pub fn wants_epoch(&self) -> (r: bool)
        ensures
            r == (!self.early_stopped && self.losses@.len() < self.num_epochs),
    {
        !self.early_stopped && self.losses.len() < self.num_epochs
    }

    /// What the run has come to so far.
    fn outcome(&self, early_stopped: bool) -> (r: TrainOutcome)
        ensures
            r.well_formed(),
            r.losses@ == self.losses@,
            r.early_stopped == early_stopped,
    {
        let losses: Vec<u32> = copy_list(&self.losses);
        let n: usize = losses.len();
        let final_loss: u32 = if n == 0 {
            ZERO_LOSS
        } else {
            losses[n - 1]
        };
        TrainOutcome { epochs_run: n, early_stopped, final_loss, losses }
    }

    /// Takes the loss of an epoch. Every `CHECKPOINT_EPOCHS` epochs the model is
    /// to be saved, and the outcome so far is returned.
    pub fn epoch_done(&mut self, loss: u32) -> (checkpoint: Option<TrainOutcome>)
        requires
            old(self).well_formed(),
            old(self).between_epochs(),
            !old(self).early_stopped,
            old(self).losses@.len() < old(self).num_epochs,
        ensures
            final(self).well_formed(),
            final(self).open_epoch(),
            final(self).num_epochs == old(self).num_epochs,
            final(self).patience == old(self).patience,
            final(self).losses@ == old(self).losses@.push(loss),
            final(self).improved == old(self).improved,
            final(self).snapshots == old(self).snapshots,
            final(self).early_stopped == old(self).early_stopped,
            match checkpoint {
                Some(o) => final(self).losses@.len() % CHECKPOINT_EPOCHS as nat == 0
                    && o.well_formed() && o.losses@ == final(self).losses@ && !o.early_stopped,
                None => final(self).losses@.len() % CHECKPOINT_EPOCHS as nat != 0,
            },
            checkpoint is Some <==> final(self).losses@.len() % 10 == 0,
            checkpoint matches Some(o) ==> o.epochs_run == final(self).losses@.len()
                && o.final_loss == loss,
    {
        self.losses.push(loss);
        if self.losses.len() % CHECKPOINT_EPOCHS == 0 {
            Some(self.outcome(false))
        } else {
            None
        }
    }

    /// The losses over which the smoothed loss is the mean.
    pub fn recent_losses(&self) -> (r: Vec<u32>)
        ensures
            r@ == if self.losses@.len() <= SMOOTH_WINDOW {
                self.losses@
            } else {
                self.losses@.skip(self.losses@.len() - SMOOTH_WINDOW)
            },
            r@.len() == if self.losses@.len() <= 20 {
                self.losses@.len()
            } else {
                20
            },
            forall|i: int|
                0 <= i < r@.len() ==> #[trigger] r@[i] == self.losses@[self.losses@.len() - r@.len()
                    + i],
    {
        let n: usize = self.losses.len();
        let from: usize = if n <= SMOOTH_WINDOW {
            0
        } else {
            n - SMOOTH_WINDOW
        };
        proof {
            assert(self.losses@.subrange(from as int, n as int) =~= if n <= SMOOTH_WINDOW {
                self.losses@
            } else {
                self.losses@.skip(from as int)
            });
        }
        copy_part(&self.losses, from, n)
    }

    /// Decides whether the new best smoothed loss of the last epoch is worth a
    /// snapshot, and takes note of one that is.
    pub fn new_best(&mut self, enough_better: bool) -> (snapshot: bool)
        requires
            old(self).well_formed(),
            old(self).open_epoch(),
        ensures
            final(self).well_formed(),
            final(self).open_epoch(),
            final(self).num_epochs == old(self).num_epochs,
            final(self).patience == old(self).patience,
            final(self).losses == old(self).losses,
            final(self).improved == old(self).improved,
            final(self).early_stopped == old(self).early_stopped,
            snapshot == snapshot_due(
                old(self).losses@.len() as int,
                old(self).last_snapshot_epoch,
                enough_better,
            ),
            final(self).snapshots@ == if snapshot {
                old(self).snapshots@.push(old(self).losses@.len() as usize)
            } else {
                old(self).snapshots@
            },
    {
        let epoch: usize = self.losses.len();
        if should_snapshot(epoch, self.last_snapshot_epoch, enough_better) {
            self.last_snapshot_epoch = Some(epoch);
            proof {
                let more = self.snapshots@.push(epoch);
                assert forall|i: int| #![trigger more[i]] 0 < i < more.len() implies more[i]
                    - more[i - 1] >= MIN_SNAPSHOT_GAP_EPOCHS by {
                    if i < self.snapshots@.len() {
                        assert(more[i] == self.snapshots@[i]);
                    }
                }
                self.snapshots@ = more;
            }
            true
        } else {
            false
        }
    }

    /// Judges the last epoch by whether the smoothed loss improved on the best
    /// one by enough. Where there is a patience, that many epochs in a row
    /// without improvement stop the run.
    pub fn judge(&mut self, improved: bool)
        requires
            old(self).well_formed(),
            old(self).open_epoch(),
            !old(self).early_stopped,
        ensures
            final(self).well_formed(),
            final(self).between_epochs(),
            final(self).num_epochs == old(self).num_epochs,
            final(self).patience == old(self).patience,
            final(self).losses == old(self).losses,
            final(self).snapshots == old(self).snapshots,
            final(self).improved@ == old(self).improved@.push(improved),
            final(self).early_stopped <==> old(self).patience > 0 && stalled(
                final(self).improved@,
            ) >= old(self).patience,
            final(self).early_stopped <==> old(self).patience > 0 && old(self).patience
                <= final(self).improved@.len() && forall|i: int|
                final(self).improved@.len() - old(self).patience <= i
                    < final(self).improved@.len() ==> !#[trigger] final(self).improved@[i],
    {
        proof {
            let more = self.improved@.push(improved);
            assert(more.drop_last() =~= self.improved@);
            self.improved@ = more;
        }
        if self.patience > 0 {
            if improved {
                self.epochs_no_improve = 0;
            } else {
                self.epochs_no_improve = self.epochs_no_improve + 1;
            }
            if self.epochs_no_improve >= self.patience {
                self.early_stopped = true;
            }
        }
        proof {
            law_patience_runs_out(*self);
        }
    }

    /// What the run came to, once it is over: all its epochs were run, or it
    /// stopped early.
    pub fn finish(self) -> (r: TrainOutcome)
        requires
            self.well_formed(),
            self.between_epochs(),
            self.early_stopped || self.losses@.len() == self.num_epochs,
        ensures
            r.well_formed(),
            r.losses@ == self.losses@,
            r.early_stopped == self.early_stopped,
            r.epochs_run <= self.num_epochs,
            !r.early_stopped ==> r.epochs_run == self.num_epochs,
    {
        self.outcome(self.early_stopped)
    }
}

} // verus!
