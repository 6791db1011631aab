//! The walk of a training run over the rows of a dataset.
//!
//! A run makes a fixed number of passes, the epochs. Each epoch visits every
//! row once, in an order drawn afresh for that epoch. The plan holds no
//! numbers of the model: it says which row is next, when an epoch is over and
//! whether the mean loss of that epoch is to be reported, and it is the caller
//! who updates the model for each row it is told to visit.

use rand::rngs::StdRng;
use rand::seq::SliceRandom;
use vstd::prelude::*;

verus! {

/// What the caller of `TrainingPlan::advance` is to do next.
#[derive(Debug, Clone, Copy, PartialEq, Eq, Structural)]
pub enum Step {
    /// Update the model for the row with this index.
    Visit { row: usize },
    /// The epoch with this number, counted from one, is over. With `report`
    /// set, its mean loss is to be reported.
    EpochEnd { epoch: usize, report: bool },
    /// Every epoch has been walked.
    Done,
}

/// The walk of one training run: how far it has come, and the order in which
/// the current epoch visits the rows.
pub struct TrainingPlan {
    rows: usize,
    epochs: usize,
    epoch: usize,
    cursor: usize,
    order: Vec<usize>,
}

/// A plan as contracts see it.
pub struct PlanView {
    /// The number of rows in the dataset.
    pub rows: nat,
    /// The number of epochs asked for.
    pub epochs: nat,
    /// The number of epochs that are over.
    pub epoch: nat,
    /// The number of rows visited in the current epoch.
    pub cursor: nat,
    /// The order of the current epoch.
    pub order: Seq<usize>,
}

/// `rand::rngs::StdRng`, the generator that the orders are drawn from. A value
/// of it is carried through to the shuffle; nothing of its state is seen or
/// stated here.
#[verifier::external_type_specification]
#[verifier::external_body]
pub struct ExStdRng(StdRng);

/// The mean loss is reported after each epoch whose number is a multiple of
/// this.
pub const REPORT_INTERVAL: usize = 100;

/// `order` lists each of the numbers below `n` once.
pub open spec fn is_permutation(order: Seq<usize>, n: nat) -> bool {
    &&& order.len() == n
    &&& forall|i: int| 0 <= i < order.len() ==> order[i] < n
    &&& forall|i: int, j: int| 0 <= i < j < order.len() ==> order[i] != order[j]
}

/// Whether the mean loss is reported after epoch `epoch`, counted from one, of
/// a run over `rows` rows. Without rows there is no mean.
pub open spec fn report_due(epoch: nat, rows: nat) -> bool {
    rows > 0 && epoch % (REPORT_INTERVAL as nat) == 0
}

/// `SliceRandom::shuffle` of the crate `rand`, on a vector of row numbers. It
/// moves the entries about by swapping pairs of them, so the vector holds
/// afterwards what it held before, each entry as often as before. Which order
/// comes out depends on the generator, and nothing is said of it. The call
/// does not panic: every index that it draws lies within the vector, and the
/// generator cannot fail.
#[verifier::external_body]
fn shuffle(order: &mut Vec<usize>, rng: &mut StdRng)
    ensures
        final(order)@.to_multiset() == old(order)@.to_multiset(),
    no_unwind
{
    order.shuffle(rng);
}

/// An order that holds what a permutation holds is a permutation.
pub proof fn lemma_shuffled_permutation(before: Seq<usize>, after: Seq<usize>, n: nat)
    requires
        is_permutation(before, n),
        after.to_multiset() == before.to_multiset(),
    ensures
        is_permutation(after, n),
{
    broadcast use vstd::seq_lib::to_multiset_len, vstd::seq_lib::to_multiset_contains;
    assert(before.len() == before.to_multiset().len());
    assert forall|i: int| 0 <= i < after.len() implies after[i] < n by {
        assert(before.to_multiset().count(after[i]) > 0);
        assert(before.contains(after[i]));
    }
    before.lemma_multiset_has_no_duplicates();
    after.lemma_multiset_has_no_duplicates_conv();
}

/// The numbers below `n` in rising order.
pub open spec fn identity(n: nat) -> Seq<usize> {
    Seq::new(n, |i: int| i as usize)
}

impl PlanView {
    /// What holds of every plan: it is within its epochs and within the
    /// current one, it rests at the start of an epoch once all are over, and
    /// its order is a permutation of the rows.
    pub open spec fn wf(self) -> bool {
        &&& self.rows <= usize::MAX
        &&& self.epochs <= usize::MAX
        &&& self.epoch <= self.epochs
        &&& self.cursor <= self.rows
        &&& self.epoch == self.epochs ==> self.cursor == 0
        &&& is_permutation(self.order, self.rows)
    }

    /// Whether `drawn` can be the order that the plan goes on with. At the
    /// start of an epoch a fresh order is drawn, which may be any permutation;
    /// within an epoch the order stays.
    pub open spec fn draws(self, drawn: Seq<usize>) -> bool {
        if self.epoch < self.epochs && self.cursor == 0 && self.rows > 0 {
            drawn.to_multiset() == self.order.to_multiset()
        } else {
            drawn == self.order
        }
    }

    /// What the caller is told when the plan goes on with the order `drawn`.
    pub open spec fn step(self, drawn: Seq<usize>) -> Step {
        if self.epoch >= self.epochs {
            Step::Done
        } else if self.cursor >= self.rows {
            Step::EpochEnd {
                epoch: (self.epoch + 1) as usize,
                report: report_due(self.epoch + 1, self.rows),
            }
        } else {
            Step::Visit { row: drawn[self.cursor as int] }
        }
    }

    /// The plan after that step.
    pub open spec fn after(self, drawn: Seq<usize>) -> PlanView {
        if self.epoch >= self.epochs {
            self
        } else if self.cursor >= self.rows {
            PlanView { epoch: self.epoch + 1, cursor: 0, ..self }
        } else {
            PlanView { cursor: self.cursor + 1, order: drawn, ..self }
        }
    }

    /// The number of steps before the plan says `Done`: for each epoch that is
    /// left one visit to each row and the end of the epoch.
    pub open spec fn steps_left(self) -> int {
        (self.epochs - self.epoch) * (self.rows + 1) - self.cursor
    }

    /// The plan after `k` steps that all go on with the order `drawn`.
    pub open spec fn after_steps(self, drawn: Seq<usize>, k: nat) -> PlanView
        decreases k,
    {
        if k == 0 {
            self
        } else {
            self.after_steps(drawn, (k - 1) as nat).after(drawn)
        }
    }
}

/// A step leaves a plan well formed.
pub proof fn lemma_step_keeps_plan(plan: PlanView, drawn: Seq<usize>)
    requires
        plan.wf(),
        plan.draws(drawn),
    ensures
        plan.after(drawn).wf(),
        plan.after(drawn).rows == plan.rows,
        plan.after(drawn).epochs == plan.epochs,
{
    lemma_shuffled_permutation(plan.order, drawn, plan.rows);
}

/// A run takes one step for each visit and one for the end of each epoch, and
/// no more: every step but `Done` brings the plan one step nearer to its end,
/// and `Done` comes exactly when no step is left.
pub proof fn lemma_steps_left(plan: PlanView, drawn: Seq<usize>)
    requires
        plan.wf(),
    ensures
        plan.steps_left() >= 0,
        plan.step(drawn) == Step::Done <==> plan.steps_left() == 0,
        plan.step(drawn) != Step::Done ==> plan.after(drawn).steps_left() == plan.steps_left() - 1,
{
    let e: int = plan.epochs - plan.epoch;
    let r: int = plan.rows as int + 1;
    if plan.epoch < plan.epochs {
        assert(e * r >= r) by (nonlinear_arith)
            requires
                e >= 1,
                r >= 1,
        ;
        assert((e - 1) * r == e * r - r) by (nonlinear_arith);
    } else {
        assert(e * r == 0) by (nonlinear_arith)
            requires
                e == 0,
        ;
    }
}

/// Every epoch visits each row exactly once. From the start of an epoch whose
/// order is drawn as `drawn`, step number `k` visits the row `drawn[k]`, and
/// `drawn` is a permutation of the rows; the step after the last visit ends
/// the epoch.
pub proof fn lemma_epoch_walk(plan: PlanView, drawn: Seq<usize>, k: nat)
    requires
        plan.wf(),
        plan.epoch < plan.epochs,
        plan.cursor == 0,
        plan.draws(drawn),
        k <= plan.rows,
    ensures
        is_permutation(drawn, plan.rows),
        plan.after_steps(drawn, k) == (PlanView {
            cursor: k,
            order: if k == 0 {
                plan.order
            } else {
                drawn
            },
            ..plan
        }),
        plan.after_steps(drawn, k).draws(drawn),
        k < plan.rows ==> plan.after_steps(drawn, k).step(drawn) == (Step::Visit {
            row: drawn[k as int],
        }),
        k == plan.rows ==> plan.after_steps(drawn, k).step(drawn) == (Step::EpochEnd {
            epoch: (plan.epoch + 1) as usize,
            report: report_due(plan.epoch + 1, plan.rows),
        }),
    decreases k,
{
    lemma_shuffled_permutation(plan.order, drawn, plan.rows);
    if k > 0 {
        lemma_epoch_walk(plan, drawn, (k - 1) as nat);
    }
}

/// Over a dataset without rows no step asks for a visit or for a report, so a
/// run over it calls for no update of the model and for no mean of nothing.
pub proof fn lemma_empty_dataset(plan: PlanView, drawn: Seq<usize>)
    requires
        plan.wf(),
        plan.rows == 0,
        plan.draws(drawn),
    ensures
        !(plan.step(drawn) is Visit),
        plan.step(drawn) is EpochEnd ==> !plan.step(drawn)->report,
        plan.after(drawn).rows == 0,
        plan.steps_left() == plan.epochs - plan.epoch,
{
    assert((plan.epochs - plan.epoch) * 1 == plan.epochs - plan.epoch) by (nonlinear_arith);
}

impl View for TrainingPlan {
    type V = PlanView;

    closed spec fn view(&self) -> PlanView {
        PlanView {
            rows: self.rows as nat,
            epochs: self.epochs as nat,
            epoch: self.epoch as nat,
            cursor: self.cursor as nat,
            order: self.order@,
        }
    }
}

impl TrainingPlan {
    #[verifier::type_invariant]
    closed spec fn inv(self) -> bool {
        &&& self.epoch <= self.epochs
        &&& self.cursor <= self.rows
        &&& self.epoch == self.epochs ==> self.cursor == 0
        &&& self.order@.to_multiset() == identity(self.rows as nat).to_multiset()
    }

    /// A plan for `epochs` epochs over `rows` rows, at the start of the first
    /// epoch. No order has been drawn yet.
    pub fn new(rows: usize, epochs: usize) -> (plan: TrainingPlan)
        ensures
            plan@ == (PlanView {
                rows: rows as nat,
                epochs: epochs as nat,
                epoch: 0,
                cursor: 0,
                order: identity(rows as nat),
            }),
            plan@.wf(),
    {
        let mut order: Vec<usize> = Vec::new();
        let mut i: usize = 0;
        while i < rows
            invariant
                0 <= i <= rows,
                order@ =~= identity(i as nat),
            decreases rows - i,
        {
            order.push(i);
            i += 1;
        }
        TrainingPlan { rows, epochs, epoch: 0, cursor: 0, order }
    }

    /// The number of rows in the dataset.
    pub fn rows(&self) -> (n: usize)
        ensures
            n == self@.rows,
    {
        self.rows
    }

    /// The number of epochs asked for.
    pub fn epochs(&self) -> (n: usize)
        ensures
            n == self@.epochs,
    {
        self.epochs
    }

    /// The number of epochs that are over.
    pub fn completed(&self) -> (n: usize)
        ensures
            n == self@.epoch,
    {
        self.epoch
    }

    /// Goes one step on and says what the caller is to do.
    ///
    /// At the start of an epoch over at least one row a fresh order is drawn
    /// from `rng`. The plan then tells the caller to visit the rows one by one
    /// in that order, then that the epoch is over, and after the last epoch
    /// that the run is done, however often it is asked from then on.
    pub fn advance(&mut self, rng: &mut StdRng) -> (step: Step)
        ensures
            old(self)@.draws(final(self)@.order),
            step == old(self)@.step(final(self)@.order),
            final(self)@ == old(self)@.after(final(self)@.order),
            final(self)@.wf(),
    {
        proof {
            use_type_invariant(&*self);
            lemma_shuffled_permutation(identity(self.rows as nat), self.order@, self.rows as nat);
        }
        if self.epoch >= self.epochs {
            return Step::Done;
        }
        if self.cursor >= self.rows {
            self.cursor = 0;
            self.epoch = self.epoch + 1;
            let report: bool = self.rows > 0 && self.epoch % REPORT_INTERVAL == 0;
            return Step::EpochEnd { epoch: self.epoch, report };
        }
        if self.cursor == 0 {
            shuffle(&mut self.order, rng);
            proof {
                lemma_shuffled_permutation(identity(self.rows as nat), self.order@, self.rows as nat);
            }
        }
        let row: usize = self.order[self.cursor];
        self.cursor = self.cursor + 1;
        Step::Visit { row }
    }
}

} // verus!
