//! The harness as a mathematical state machine, and what holds of every run.
//!
//! A state holds the launched tasks, each at some place of its script, and the
//! handles of the finished ones in the order in which they finished. A handle
//! is a task's index in launch order. Resuming a handle lets that task take
//! one step; which handle is resumed next is the runtime's choice, so a run is
//! a schedule: any sequence of handles.

use crate::descriptor::DescriptorView;
use crate::step::StepView;
use crate::task::{
    lemma_advance_records_step, lemma_finished_emitted_all, lemma_progress_then_completion, script,
    TaskView,
};
use vstd::prelude::*;
use vstd::set_lib::{lemma_int_range, lemma_len_subset, lemma_subset_equality, set_int_range};

verus! {

/// The mathematical content of a harness.
pub struct HarnessView {
    /// The launched tasks, in launch order.
    pub tasks: Seq<TaskView>,
    /// The handles of the finished tasks, in completion order.
    pub completed: Seq<int>,
}

impl HarnessView {
    /// The harness right after `descriptors` were launched: every task is at
    /// the start of its script and none has completed.
    pub open spec fn launched(descriptors: Seq<DescriptorView>) -> HarnessView {
        HarnessView {
            tasks: Seq::new(descriptors.len(), |h: int| TaskView::fresh(descriptors[h])),
            completed: Seq::empty(),
        }
    }

    /// The descriptors of the launched tasks, in launch order.
    pub open spec fn descriptors(self) -> Seq<DescriptorView> {
        Seq::new(self.tasks.len(), |h: int| self.tasks[h].descriptor)
    }

    /// Whether `handle` names a launched task.
    pub open spec fn has(self, handle: int) -> bool {
        0 <= handle < self.tasks.len()
    }

    /// The invariant of every reachable state: each task is within its
    /// script, and the completions are exactly the finished tasks, each
    /// recorded once.
    pub open spec fn wf(self) -> bool {
        &&& forall|h: int| self.has(h) ==> (#[trigger] self.tasks[h]).wf()
        &&& self.completed.no_duplicates()
        &&& forall|i: int|
            0 <= i < self.completed.len() ==> self.has(#[trigger] self.completed[i])
                && self.tasks[self.completed[i]].finished()
        &&& forall|h: int|
            self.has(h) && (#[trigger] self.tasks[h]).finished() ==> self.completed.contains(h)
    }

    /// The harness with one more task, launched last.
    pub open spec fn spawn(self, descriptor: DescriptorView) -> HarnessView {
        HarnessView { tasks: self.tasks.push(TaskView::fresh(descriptor)), completed: self.completed }
    }

    /// The step that resuming `handle` yields: the task's next step, or none
    /// where the handle names no task or a finished one.
    pub open spec fn output(self, handle: int) -> Option<StepView> {
        if self.has(handle) {
            self.tasks[handle].next()
        } else {
            None
        }
    }

    /// The harness after `handle` was resumed: that task has taken its step,
    /// and if the step was its completion the handle is recorded last. Where
    /// there is no step to take, nothing changes.
    pub open spec fn resume(self, handle: int) -> HarnessView {
        match self.output(handle) {
            None => self,
            Some(step) => HarnessView {
                tasks: self.tasks.update(handle, self.tasks[handle].advance()),
                completed: if step is Complete {
                    self.completed.push(handle)
                } else {
                    self.completed
                },
            },
        }
    }

    /// The harness after the handles of `schedule` were resumed in turn.
    pub open spec fn after(self, schedule: Seq<int>) -> HarnessView
        decreases schedule.len(),
    {
        if schedule.len() == 0 {
            self
        } else {
            self.after(schedule.drop_last()).resume(schedule.last())
        }
    }

    /// How many launched tasks have not completed yet.
    pub open spec fn outstanding(self) -> int {
        self.tasks.len() - self.completed.len()
    }

    /// Every launched task has finished.
    pub open spec fn all_finished(self) -> bool {
        forall|h: int| self.has(h) ==> (#[trigger] self.tasks[h]).finished()
    }

    /// The ids reported with the completions, in completion order.
    pub open spec fn completion_ids(self) -> Seq<Seq<char>> {
        Seq::new(self.completed.len(), |i: int| self.tasks[self.completed[i]].descriptor.id)
    }

    /// The steps that the task `handle` has taken so far, oldest first.
    pub open spec fn emitted(self, handle: int) -> Seq<StepView> {
        self.tasks[handle].emitted()
    }

    /// The numbers of the progress events that the task `handle` has emitted
    /// so far, oldest first.
    pub open spec fn progress(self, handle: int) -> Seq<nat> {
        self.tasks[handle].progress()
    }

    /// How many steps are left, over all tasks, before the run is over.
    pub open spec fn remaining(self) -> nat {
        steps_left(self.tasks)
    }
}

/// The sum of the steps that each of `tasks` still has to take.
pub open spec fn steps_left(tasks: Seq<TaskView>) -> nat
    decreases tasks.len(),
{
    if tasks.len() == 0 {
        0
    } else {
        steps_left(tasks.drop_last()) + tasks.last().remaining()
    }
}

/// Distinct handles below `n` are at most `n`; if they leave one out they are
/// fewer, and if there are `n` of them they leave none out.
pub proof fn lemma_distinct_handles(s: Seq<int>, n: int)
    requires
        0 <= n,
        s.no_duplicates(),
        forall|i: int| 0 <= i < s.len() ==> 0 <= #[trigger] s[i] < n,
    ensures
        s.len() <= n,
        forall|h: int| 0 <= h < n && !s.contains(h) ==> s.len() < n,
        s.len() == n ==> s.to_set() == set_int_range(0, n),
        (forall|h: int| 0 <= h < n ==> s.contains(h)) ==> s.len() == n,
{
    let all = set_int_range(0, n);
    lemma_int_range(0, n);
    s.unique_seq_to_set();
    assert(s.to_set().subset_of(all));
    lemma_len_subset(s.to_set(), all);
    assert forall|h: int| 0 <= h < n && !s.contains(h) implies s.len() < n by {
        assert(s.to_set().subset_of(all.remove(h)));
        lemma_len_subset(s.to_set(), all.remove(h));
    }
    if s.len() == n {
        lemma_subset_equality(s.to_set(), all);
    }
    if forall|h: int| 0 <= h < n ==> s.contains(h) {
        assert(s.to_set() =~= all);
    }
}

/// Launching establishes the invariant, with every task outstanding.
pub proof fn lemma_launched_wf(descriptors: Seq<DescriptorView>)
    ensures
        HarnessView::launched(descriptors).wf(),
        HarnessView::launched(descriptors).descriptors() == descriptors,
        HarnessView::launched(descriptors).outstanding() == descriptors.len(),
{
    let h = HarnessView::launched(descriptors);
    assert forall|k: int| h.has(k) implies !(#[trigger] h.tasks[k]).finished() && h.tasks[k].wf() by {
        lemma_progress_then_completion(descriptors[k]);
    }
    assert(h.descriptors() =~= descriptors);
}

/// Launching one more task keeps the invariant and adds one outstanding task.
pub proof fn lemma_spawn_wf(h: HarnessView, descriptor: DescriptorView)
    requires
        h.wf(),
    ensures
        h.spawn(descriptor).wf(),
        h.spawn(descriptor).descriptors() == h.descriptors().push(descriptor),
        h.spawn(descriptor).outstanding() == h.outstanding() + 1,
{
    let g = h.spawn(descriptor);
    lemma_progress_then_completion(descriptor);
    assert forall|k: int| g.has(k) implies (#[trigger] g.tasks[k]).wf() by {
        if k < h.tasks.len() {
            assert(g.tasks[k] == h.tasks[k]);
        }
    }
    assert forall|i: int| 0 <= i < g.completed.len() implies g.has(#[trigger] g.completed[i])
        && g.tasks[g.completed[i]].finished() by {
        assert(h.has(h.completed[i]));
        assert(g.tasks[g.completed[i]] == h.tasks[h.completed[i]]);
    }
    assert forall|k: int| g.has(k) && (#[trigger] g.tasks[k]).finished() implies g.completed.contains(
        k,
    ) by {
        if k < h.tasks.len() {
            assert(g.tasks[k] == h.tasks[k]);
        }
    }
    assert(g.descriptors() =~= h.descriptors().push(descriptor));
}

/// Resuming any handle keeps the invariant and the launched descriptors. A
/// completion is reported exactly when the resumed task takes its last step,
/// and it carries that task's id; it then leaves one task fewer outstanding.
/// No other task is touched.
pub proof fn lemma_resume_wf(h: HarnessView, handle: int)
    requires
        h.wf(),
    ensures
        h.resume(handle).wf(),
        h.resume(handle).descriptors() == h.descriptors(),
        h.output(handle) is None <==> !h.has(handle) || h.tasks[handle].finished(),
        forall|k: int| h.has(k) && k != handle ==> h.resume(handle).tasks[k] == h.tasks[k],
        match h.output(handle) {
            None => h.resume(handle) == h,
            Some(step) => {
                &&& h.resume(handle).emitted(handle) == h.emitted(handle).push(step)
                &&& step is Complete <==> h.resume(handle).tasks[handle].finished()
                &&& step is Complete ==> step == (StepView::Complete {
                    id: h.tasks[handle].descriptor.id,
                }) && h.resume(handle).outstanding() == h.outstanding() - 1
                    && h.resume(handle).completed == h.completed.push(handle)
                &&& !(step is Complete) ==> h.resume(handle).completed == h.completed
            },
        },
{
    let g = h.resume(handle);
    if h.output(handle) is Some {
        let t = h.tasks[handle];
        lemma_advance_records_step(t);
        lemma_progress_then_completion(t.descriptor);
        assert(g.descriptors() =~= h.descriptors());
        assert forall|k: int| g.has(k) implies (#[trigger] g.tasks[k]).wf() by {
            if k != handle {
                assert(g.tasks[k] == h.tasks[k]);
            }
        }
        assert forall|i: int| 0 <= i < h.completed.len() implies h.completed[i] != handle by {
            assert(h.tasks[h.completed[i]].finished());
        }
        assert forall|i: int| 0 <= i < g.completed.len() implies g.has(#[trigger] g.completed[i])
            && g.tasks[g.completed[i]].finished() by {
            if i < h.completed.len() {
                assert(h.has(h.completed[i]));
                assert(g.tasks[g.completed[i]] == h.tasks[h.completed[i]]);
            }
        }
        assert forall|k: int| g.has(k) && (#[trigger] g.tasks[k]).finished() implies g.completed.contains(
            k,
        ) by {
            if k != handle {
                assert(g.tasks[k] == h.tasks[k]);
                let i = choose|i: int| 0 <= i < h.completed.len() && h.completed[i] == k;
                assert(g.completed[i] == k);
            } else {
                assert(g.completed[h.completed.len() as int] == handle);
            }
        }
    }
}

/// Every state that a schedule reaches from a launch satisfies the invariant
/// and still holds the launched descriptors.
pub proof fn lemma_reachable_wf(descriptors: Seq<DescriptorView>, schedule: Seq<int>)
    ensures
        HarnessView::launched(descriptors).after(schedule).wf(),
        HarnessView::launched(descriptors).after(schedule).descriptors() == descriptors,
    decreases schedule.len(),
{
    lemma_launched_wf(descriptors);
    if schedule.len() > 0 {
        lemma_reachable_wf(descriptors, schedule.drop_last());
        lemma_resume_wf(
            HarnessView::launched(descriptors).after(schedule.drop_last()),
            schedule.last(),
        );
    }
}

/// The completions never outnumber the launched tasks, and every task is
/// outstanding until it has finished: the harness is done, with nothing
/// outstanding, exactly when every launched task has finished.
pub proof fn lemma_outstanding(h: HarnessView)
    requires
        h.wf(),
    ensures
        0 <= h.outstanding() <= h.tasks.len(),
        h.outstanding() == 0 <==> h.all_finished(),
        forall|k: int| h.has(k) && !(#[trigger] h.tasks[k]).finished() ==> h.outstanding() > 0,
{
    let n = h.tasks.len() as int;
    lemma_distinct_handles(h.completed, n);
    assert forall|k: int| h.has(k) && !(#[trigger] h.tasks[k]).finished() implies h.outstanding()
        > 0 by {
        if h.completed.contains(k) {
            let i = choose|i: int| 0 <= i < h.completed.len() && h.completed[i] == k;
            assert(h.tasks[h.completed[i]].finished());
        }
    }
    if h.all_finished() {
        assert forall|k: int| 0 <= k < n implies h.completed.contains(k) by {
            assert(h.tasks[k].finished());
        }
    }
}

/// Replacing one task changes the steps that are left by the difference
/// between what the old and the new task have left.
proof fn lemma_steps_left_update(tasks: Seq<TaskView>, k: int, t: TaskView)
    requires
        0 <= k < tasks.len(),
    ensures
        steps_left(tasks.update(k, t)) == steps_left(tasks) - tasks[k].remaining() + t.remaining(),
    decreases tasks.len(),
{
    let updated = tasks.update(k, t);
    if k == tasks.len() - 1 {
        assert(updated.drop_last() =~= tasks.drop_last());
    } else {
        assert(updated.drop_last() =~= tasks.drop_last().update(k, t));
        lemma_steps_left_update(tasks.drop_last(), k, t);
    }
}

/// No step is left exactly when no task has one left.
proof fn lemma_steps_left_zero(tasks: Seq<TaskView>)
    ensures
        steps_left(tasks) == 0 <==> forall|k: int|
            0 <= k < tasks.len() ==> (#[trigger] tasks[k]).remaining() == 0,
    decreases tasks.len(),
{
    if tasks.len() > 0 {
        let rest = tasks.drop_last();
        lemma_steps_left_zero(rest);
        if steps_left(tasks) == 0 {
            assert forall|k: int| 0 <= k < tasks.len() implies (#[trigger] tasks[k]).remaining()
                == 0 by {
                if k < rest.len() {
                    assert(rest[k] == tasks[k]);
                }
            }
        } else if steps_left(rest) != 0 {
            let k = choose|k: int| 0 <= k < rest.len() && (#[trigger] rest[k]).remaining() != 0;
            assert(tasks[k] == rest[k]);
        }
    }
}

/// Every run ends: each resume that yields a step leaves exactly one step
/// fewer to take, a resume that yields none leaves the count as it is, and
/// the count is zero exactly when every launched task has finished. There is
/// no way to finish early and none to go on for ever.
pub proof fn lemma_resume_makes_progress(h: HarnessView, handle: int)
    requires
        h.wf(),
    ensures
        h.remaining() == 0 <==> h.all_finished(),
        h.output(handle) is Some ==> h.resume(handle).remaining() == h.remaining() - 1,
        h.output(handle) is None ==> h.resume(handle).remaining() == h.remaining(),
{
    lemma_steps_left_zero(h.tasks);
    assert(h.remaining() == 0 <==> h.all_finished()) by {
        if h.all_finished() {
            assert forall|k: int| 0 <= k < h.tasks.len() implies (#[trigger] h.tasks[k]).remaining()
                == 0 by {
                assert(h.has(k));
            }
        }
        if h.remaining() == 0 {
            assert forall|k: int| h.has(k) implies (#[trigger] h.tasks[k]).finished() by {
                assert(h.tasks[k].remaining() == 0);
                assert(h.tasks[k].wf());
            }
        }
    }
    if h.output(handle) is Some {
        lemma_advance_records_step(h.tasks[handle]);
        lemma_steps_left_update(h.tasks, handle, h.tasks[handle].advance());
    }
}

/// Once every launched task has finished, exactly as many completions were
/// reported as tasks were launched: each handle once, none left out, each with
/// the id of the descriptor that it was launched from. Where the launched ids
/// differ from each other, so do the reported ones.
pub proof fn lemma_every_task_reported_once(h: HarnessView)
    requires
        h.wf(),
        h.all_finished(),
    ensures
        h.completed.len() == h.tasks.len(),
        h.completed.no_duplicates(),
        forall|k: int| h.has(k) <==> h.completed.contains(k),
        h.completed.to_set() == set_int_range(0, h.tasks.len() as int),
        forall|i: int|
            0 <= i < h.completed.len() ==> #[trigger] h.completion_ids()[i]
                == h.descriptors()[h.completed[i]].id,
        (forall|j: int, k: int|
            h.has(j) && h.has(k) && j != k ==> h.descriptors()[j].id != h.descriptors()[k].id)
            ==> h.completion_ids().no_duplicates(),
{
    let n = h.tasks.len() as int;
    lemma_distinct_handles(h.completed, n);
    assert forall|k: int| 0 <= k < n implies h.completed.contains(k) by {
        assert(h.tasks[k].finished());
    }
    assert forall|k: int| h.completed.contains(k) implies h.has(k) by {
        let i = choose|i: int| 0 <= i < h.completed.len() && h.completed[i] == k;
        assert(h.has(h.completed[i]));
    }
}

/// Two runs of the same descriptors, under any two schedules that let every
/// task finish, agree: the same set of completions, and for every task the
/// same steps and the same progress events in the same order, which are those
/// of the task's script.
pub proof fn lemma_runs_agree(descriptors: Seq<DescriptorView>, first: Seq<int>, second: Seq<int>)
    requires
        HarnessView::launched(descriptors).after(first).all_finished(),
        HarnessView::launched(descriptors).after(second).all_finished(),
    ensures
        ({
            let a = HarnessView::launched(descriptors).after(first);
            let b = HarnessView::launched(descriptors).after(second);
            &&& a.tasks == b.tasks
            &&& a.completed.to_set() == b.completed.to_set()
            &&& a.completion_ids().to_set() == b.completion_ids().to_set()
            &&& forall|k: int|
                0 <= k < descriptors.len() ==> #[trigger] a.emitted(k) == script(descriptors[k])
                    && a.emitted(k) == b.emitted(k) && a.progress(k) == b.progress(k)
        }),
{
    let a = HarnessView::launched(descriptors).after(first);
    let b = HarnessView::launched(descriptors).after(second);
    lemma_reachable_wf(descriptors, first);
    lemma_reachable_wf(descriptors, second);
    lemma_every_task_reported_once(a);
    lemma_every_task_reported_once(b);
    assert(a.tasks.len() == a.descriptors().len());
    assert(b.tasks.len() == b.descriptors().len());
    assert forall|k: int| 0 <= k < descriptors.len() implies #[trigger] a.tasks[k] == b.tasks[k] by {
        assert(a.descriptors()[k] == descriptors[k]);
        assert(b.descriptors()[k] == descriptors[k]);
        assert(a.tasks[k].finished() && b.tasks[k].finished());
        assert(a.tasks[k].wf() && b.tasks[k].wf());
        lemma_task_at_end(a.tasks[k]);
        lemma_task_at_end(b.tasks[k]);
    }
    assert(a.tasks =~= b.tasks);
    assert forall|k: int| 0 <= k < descriptors.len() implies #[trigger] a.emitted(k) == script(
        descriptors[k],
    ) by {
        assert(a.descriptors()[k] == descriptors[k]);
        assert(a.tasks[k].finished() && a.tasks[k].wf());
        lemma_finished_emitted_all(a.tasks[k]);
    }
    assert(a.completion_ids().to_set() =~= b.completion_ids().to_set()) by {
        assert forall|id: Seq<char>| a.completion_ids().contains(id) implies b.completion_ids().contains(
            id,
        ) by {
            lemma_same_ids(a, b, id);
        }
        assert forall|id: Seq<char>| b.completion_ids().contains(id) implies a.completion_ids().contains(
            id,
        ) by {
            lemma_same_ids(b, a, id);
        }
    }
}

/// A finished task within its script stands exactly at the script's end.
proof fn lemma_task_at_end(t: TaskView)
    requires
        t.wf(),
        t.finished(),
    ensures
        t == (TaskView { descriptor: t.descriptor, position: script(t.descriptor).len() }),
{
}

/// An id that one finished run reports is reported by every other finished
/// run of the same tasks.
proof fn lemma_same_ids(a: HarnessView, b: HarnessView, id: Seq<char>)
    requires
        a.wf(),
        b.wf(),
        a.all_finished(),
        b.all_finished(),
        a.tasks == b.tasks,
        a.completion_ids().contains(id),
    ensures
        b.completion_ids().contains(id),
{
    lemma_every_task_reported_once(a);
    lemma_every_task_reported_once(b);
    let i = choose|i: int| 0 <= i < a.completion_ids().len() && a.completion_ids()[i] == id;
    let k = a.completed[i];
    assert(a.has(k));
    assert(b.completed.contains(k));
    let j = choose|j: int| 0 <= j < b.completed.len() && b.completed[j] == k;
    assert(b.completion_ids()[j] == id);
}

} // verus!
