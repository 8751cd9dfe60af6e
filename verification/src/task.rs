//! A single task as a state machine.
//!
//! A task's whole life is fixed by its descriptor: for each unit of work one
//! delay followed by one progress event, and a completion at the end. That
//! sequence is the task's [`script`]; a [`Task`] walks along it one step per
//! call.

use crate::descriptor::{DescriptorView, TaskDescriptor};
use crate::step::{Step, StepView};
use vstd::prelude::*;

verus! {

/// The steps of the first `k` units of work of the task `id`: each unit is a
/// delay followed by the progress event that carries the unit's number.
pub open spec fn rounds(id: Seq<char>, k: nat) -> Seq<StepView>
    decreases k,
{
    if k == 0 {
        Seq::empty()
    } else {
        rounds(id, (k - 1) as nat).push(StepView::Delay).push(
            StepView::Progress { id, count: k },
        )
    }
}

/// Everything a task does, in order: its rounds of work, then its completion.
pub open spec fn script(d: DescriptorView) -> Seq<StepView> {
    rounds(d.id, d.units).push(StepView::Complete { id: d.id })
}

/// The numbers of the progress events among `steps`, in the order in which
/// they occur.
pub open spec fn progress_counts(steps: Seq<StepView>) -> Seq<nat>
    decreases steps.len(),
{
    if steps.len() == 0 {
        Seq::empty()
    } else {
        let earlier = progress_counts(steps.drop_last());
        match steps.last() {
            StepView::Progress { count, .. } => earlier.push(count),
            _ => earlier,
        }
    }
}

/// The numbers `1, 2, .., k`.
pub open spec fn one_to(k: nat) -> Seq<nat> {
    Seq::new(k, |i: int| (i + 1) as nat)
}

/// The view of an optional step.
pub open spec fn step_view(step: Option<Step>) -> Option<StepView> {
    match step {
        Some(s) => Some(s@),
        None => None,
    }
}

/// Where each step of `k` rounds stands: delays at the even places, and at the
/// odd place `2j + 1` the progress event number `j + 1`.
pub proof fn lemma_rounds_steps(id: Seq<char>, k: nat)
    ensures
        rounds(id, k).len() == 2 * k,
        forall|i: int|
            0 <= i < 2 * k && i % 2 == 0 ==> #[trigger] rounds(id, k)[i] == StepView::Delay,
        forall|i: int|
            0 <= i < 2 * k && i % 2 == 1 ==> #[trigger] rounds(id, k)[i] == (StepView::Progress {
                id,
                count: ((i + 1) / 2) as nat,
            }),
    decreases k,
{
    if k > 0 {
        lemma_rounds_steps(id, (k - 1) as nat);
    }
}

/// A longer run of rounds starts with every shorter one.
pub proof fn lemma_rounds_prefix(id: Seq<char>, j: nat, k: nat)
    requires
        j <= k,
    ensures
        rounds(id, k).len() == 2 * k,
        rounds(id, k).take(2 * j as int) == rounds(id, j),
    decreases k,
{
    lemma_rounds_steps(id, k);
    if j < k {
        lemma_rounds_prefix(id, j, (k - 1) as nat);
        lemma_rounds_steps(id, (k - 1) as nat);
        assert(rounds(id, k).take(2 * j as int) =~= rounds(id, (k - 1) as nat).take(2 * j as int));
    } else {
        assert(rounds(id, k).take(2 * j as int) =~= rounds(id, k));
    }
}

/// The progress events of `k` rounds are numbered `1, 2, .., k`, and a delay
/// after them adds none.
pub proof fn lemma_rounds_progress(id: Seq<char>, k: nat)
    ensures
        progress_counts(rounds(id, k)) == one_to(k),
        progress_counts(rounds(id, k).push(StepView::Delay)) == one_to(k),
        progress_counts(rounds(id, k).push(StepView::Complete { id })) == one_to(k),
    decreases k,
{
    let r = rounds(id, k);
    if k > 0 {
        let before = rounds(id, (k - 1) as nat);
        lemma_rounds_progress(id, (k - 1) as nat);
        assert(r.drop_last() =~= before.push(StepView::Delay));
        assert(progress_counts(r) =~= one_to(k));
    } else {
        assert(progress_counts(r) =~= one_to(k));
    }
    assert(r.push(StepView::Delay).drop_last() =~= r);
    assert(r.push(StepView::Complete { id }).drop_last() =~= r);
}

/// The mathematical content of a [`Task`]: its descriptor and how many steps
/// of its script it has taken.
pub struct TaskView {
    pub descriptor: DescriptorView,
    pub position: nat,
}

impl TaskView {
    /// A task that has taken no step yet.
    pub open spec fn fresh(descriptor: DescriptorView) -> TaskView {
        TaskView { descriptor, position: 0 }
    }

    /// The task is somewhere along its script, or at its end.
    pub open spec fn wf(self) -> bool {
        self.position <= script(self.descriptor).len()
    }

    /// The task has yielded its completion record.
    pub open spec fn finished(self) -> bool {
        self.position >= script(self.descriptor).len()
    }

    /// The step that the task takes next; none once it has finished.
    pub open spec fn next(self) -> Option<StepView> {
        if self.finished() {
            None
        } else {
            Some(script(self.descriptor)[self.position as int])
        }
    }

    /// The task after its next step; a finished task stays as it is.
    pub open spec fn advance(self) -> TaskView {
        if self.finished() {
            self
        } else {
            TaskView { descriptor: self.descriptor, position: self.position + 1 }
        }
    }

    /// The steps taken so far, oldest first.
    pub open spec fn emitted(self) -> Seq<StepView> {
        script(self.descriptor).take(self.position as int)
    }

    /// The numbers of the progress events emitted so far, oldest first.
    pub open spec fn progress(self) -> Seq<nat> {
        progress_counts(self.emitted())
    }

    /// How many steps are left before the task has finished.
    pub open spec fn remaining(self) -> nat {
        if self.finished() {
            0
        } else {
            (script(self.descriptor).len() - self.position) as nat
        }
    }
}

/// At every moment of a task's life the progress events that it has emitted
/// are numbered `1, 2, ..` without a gap and in increasing order: after
/// `position` steps there are `position / 2` of them.
pub proof fn lemma_progress_so_far(t: TaskView)
    requires
        t.wf(),
    ensures
        t.progress() == one_to(t.position / 2),
{
    let d = t.descriptor;
    let m = t.position / 2;
    lemma_rounds_steps(d.id, d.units);
    lemma_rounds_progress(d.id, m);
    lemma_rounds_prefix(d.id, m, d.units);
    if t.position == 2 * m {
        assert(t.emitted() =~= rounds(d.id, m));
    } else if m < d.units {
        assert(t.emitted() =~= rounds(d.id, m).push(StepView::Delay));
    } else {
        assert(rounds(d.id, d.units).take(2 * d.units as int) =~= rounds(d.id, d.units));
        assert(t.emitted() =~= script(d));
    }
}

/// A task without work completes at once: its script is its completion record
/// and nothing else, so it emits no progress event.
pub proof fn lemma_no_units_no_progress(d: DescriptorView)
    requires
        d.units == 0,
    ensures
        script(d) == seq![StepView::Complete { id: d.id }],
        progress_counts(script(d)) == Seq::<nat>::empty(),
        TaskView::fresh(d).next() == Some(StepView::Complete { id: d.id }),
{
    lemma_rounds_progress(d.id, 0);
    assert(script(d) =~= seq![StepView::Complete { id: d.id }]);
    assert(one_to(0) =~= Seq::<nat>::empty());
}

/// A task of `k` units emits exactly `k` progress events, numbered `1` to `k`
/// in strictly increasing order and each tagged with the task's id, and all of
/// them before its completion: the completion record is the last step of the
/// script, and no earlier step is one.
pub proof fn lemma_progress_then_completion(d: DescriptorView)
    ensures
        script(d).len() == 2 * d.units + 1,
        progress_counts(script(d)) == one_to(d.units),
        progress_counts(script(d)).len() == d.units,
        forall|i: int, j: int|
            0 <= i < j < d.units ==> progress_counts(script(d))[i] < progress_counts(
                script(d),
            )[j],
        script(d).last() == (StepView::Complete { id: d.id }),
        forall|i: int| 0 <= i < script(d).len() - 1 ==> !(#[trigger] script(d)[i] is Complete),
        forall|i: int|
            0 <= i < script(d).len() && #[trigger] script(d)[i] is Progress ==> script(
                d,
            )[i]->Progress_id == d.id,
{
    lemma_rounds_steps(d.id, d.units);
    lemma_rounds_progress(d.id, d.units);
    assert forall|i: int| 0 <= i < script(d).len() - 1 implies !(#[trigger] script(d)[i]
        is Complete) by {
        assert(script(d)[i] == rounds(d.id, d.units)[i]);
        assert(i % 2 == 0 || i % 2 == 1);
    }
    assert forall|i: int|
        0 <= i < script(d).len() && #[trigger] script(d)[i] is Progress implies script(
        d,
    )[i]->Progress_id == d.id by {
        if i < 2 * d.units {
            assert(script(d)[i] == rounds(d.id, d.units)[i]);
            assert(i % 2 == 0 || i % 2 == 1);
        }
    }
}

/// A finished task has emitted its whole script, whatever happened around it.
pub proof fn lemma_finished_emitted_all(t: TaskView)
    requires
        t.wf(),
        t.finished(),
    ensures
        t.emitted() == script(t.descriptor),
        t.progress() == one_to(t.descriptor.units),
        t.remaining() == 0,
{
    assert(t.emitted() =~= script(t.descriptor));
    lemma_progress_then_completion(t.descriptor);
}

/// Each step of an unfinished task brings it one step closer to its end, and
/// adds the step to what the task has emitted.
pub proof fn lemma_advance_records_step(t: TaskView)
    requires
        t.wf(),
        !t.finished(),
    ensures
        t.advance().wf(),
        t.advance().remaining() == t.remaining() - 1,
        t.next() matches Some(step) && t.advance().emitted() == t.emitted().push(step),
        t.advance().finished() <==> t.next().unwrap() is Complete,
{
    let d = t.descriptor;
    lemma_progress_then_completion(d);
    assert(t.advance().emitted() =~= t.emitted().push(script(d)[t.position as int]));
}

/// Whether a task is between two units, suspended, or done.
#[derive(Debug, Clone, Copy, PartialEq, Eq)]
enum Phase {
    /// About to ask for the delay of the next unit, or to complete.
    Ready,
    /// Suspended; the progress event of the current unit comes next.
    Sleeping,
    /// The completion record was handed out.
    Finished,
}

/// One task in flight. It owns its loop counter; nothing is shared between
/// tasks.
#[derive(Debug)]
pub struct Task {
    descriptor: TaskDescriptor,
    done: u64,
    phase: Phase,
}

impl View for Task {
    type V = TaskView;

    closed spec fn view(&self) -> TaskView {
        TaskView {
            descriptor: self.descriptor@,
            position: match self.phase {
                Phase::Ready => 2 * (self.done as nat),
                Phase::Sleeping => 2 * (self.done as nat) + 1,
                Phase::Finished => 2 * self.descriptor@.units + 1,
            },
        }
    }
}

impl Task {
    /// The representation invariant: the counter never passes the unit count,
    /// a suspended task has a unit left, and a finished one has none.
    pub closed spec fn wf(&self) -> bool {
        &&& self.done as nat <= self.descriptor@.units
        &&& self.phase is Sleeping ==> (self.done as nat) < self.descriptor@.units
        &&& self.phase is Finished ==> self.done as nat == self.descriptor@.units
    }

    /// A well-formed task has a well-formed view.
    pub proof fn lemma_view_wf(&self)
        requires
            self.wf(),
        ensures
            self@.wf(),
    {
        lemma_rounds_steps(self.descriptor@.id, self.descriptor@.units);
    }

    /// A task that is about to take the first step of `descriptor`'s script.
    pub fn new(descriptor: TaskDescriptor) -> (task: Task)
        ensures
            task.wf(),
            task@ == TaskView::fresh(descriptor@),
    {
        Task { descriptor, done: 0, phase: Phase::Ready }
    }

    /// The descriptor that the task was made from.
    pub fn descriptor(&self) -> (descriptor: &TaskDescriptor)
        ensures
            descriptor@ == self@.descriptor,
    {
        &self.descriptor
    }

    /// Whether the task has yielded its completion record.
    pub fn is_finished(&self) -> (finished: bool)
        requires
            self.wf(),
        ensures
            finished == self@.finished(),
    {
        proof {
            lemma_rounds_steps(self.descriptor@.id, self.descriptor@.units);
        }
        match self.phase {
            Phase::Finished => true,
            _ => false,
        }
    }

    /// How many progress events the task has emitted.
    pub fn units_done(&self) -> (done: u64)
        requires
            self.wf(),
        ensures
            done as nat == self@.progress().len(),
            self@.progress() == one_to(done as nat),
    {
        proof {
            self.lemma_view_wf();
            lemma_progress_so_far(self@);
        }
        self.done
    }

    /// Takes the task's next step and returns it; returns nothing, and changes
    /// nothing, once the task has finished.
    ///
    /// The caller carries the step out: after a `Delay` it suspends the task
    /// for the fixed interval before it calls again.
    pub fn advance(&mut self) -> (step: Option<Step>)
        requires
            old(self).wf(),
        ensures
            final(self).wf(),
            final(self)@ == old(self)@.advance(),
            step_view(step) == old(self)@.next(),
    {
        proof {
            lemma_rounds_steps(self.descriptor@.id, self.descriptor@.units);
        }
        let units = self.descriptor.units();
        match self.phase {
            Phase::Ready => {
                if self.done < units {
                    self.phase = Phase::Sleeping;
                    Some(Step::Delay)
                } else {
                    self.phase = Phase::Finished;
                    Some(Step::Complete { id: self.descriptor.id().clone() })
                }
            },
            Phase::Sleeping => {
                self.done = self.done + 1;
                self.phase = Phase::Ready;
                Some(Step::Progress { id: self.descriptor.id().clone(), count: self.done })
            },
            Phase::Finished => None,
        }
    }
}

} // verus!
