//! The harness: the set of launched tasks and the record of their completions.

use crate::descriptor::{DescriptorView, TaskDescriptor};
use crate::model::{lemma_outstanding, lemma_resume_wf, lemma_spawn_wf, HarnessView};
use crate::step::Step;
use crate::task::{step_view, Task};
use vstd::prelude::*;

verus! {

/// The views of a list of descriptors.
pub open spec fn descriptor_views(descriptors: Seq<TaskDescriptor>) -> Seq<DescriptorView> {
    Seq::new(descriptors.len(), |i: int| descriptors[i]@)
}

/// The launched tasks, each owned by the harness until it has finished, and
/// the handles of the finished ones in the order in which they finished.
///
/// A handle is the task's index in launch order.
#[derive(Debug)]
pub struct Harness {
    tasks: Vec<Task>,
    completed: Vec<usize>,
}

impl View for Harness {
    type V = HarnessView;

    closed spec fn view(&self) -> HarnessView {
        HarnessView {
            tasks: Seq::new(self.tasks@.len(), |h: int| self.tasks@[h]@),
            completed: Seq::new(self.completed@.len(), |i: int| self.completed@[i] as int),
        }
    }
}

impl Harness {
    /// The representation invariant: every task is well formed, and the view
    /// satisfies the invariant of the model.
    pub closed spec fn wf(&self) -> bool {
        &&& forall|h: int| 0 <= h < self.tasks@.len() ==> (#[trigger] self.tasks@[h]).wf()
        &&& self@.wf()
    }

    /// A well-formed harness has a well-formed view.
    pub proof fn lemma_view_wf(&self)
        requires
            self.wf(),
        ensures
            self@.wf(),
    {
    }

    /// A harness without tasks.
    pub fn new() -> (harness: Harness)
        ensures
            harness.wf(),
            harness@ == HarnessView::launched(Seq::empty()),
    {
        let harness = Harness { tasks: Vec::new(), completed: Vec::new() };
        assert(harness@.tasks =~= HarnessView::launched(Seq::empty()).tasks);
        assert(harness@.completed =~= HarnessView::launched(Seq::empty()).completed);
        harness
    }

    /// Launches one task and returns its handle.
    pub fn spawn(&mut self, descriptor: TaskDescriptor) -> (handle: usize)
        requires
            old(self).wf(),
        ensures
            final(self).wf(),
            final(self)@ == old(self)@.spawn(descriptor@),
            handle == old(self)@.tasks.len(),
    {
        let handle = self.tasks.len();
        self.tasks.push(Task::new(descriptor));
        proof {
            lemma_spawn_wf(old(self)@, descriptor@);
            assert(self@.tasks =~= old(self)@.spawn(descriptor@).tasks);
            assert(self@.completed =~= old(self)@.spawn(descriptor@).completed);
        }
        handle
    }

    /// Launches all of `descriptors` at once, in their order: the task of the
    /// descriptor at index `h` gets the handle `h`.
    pub fn launch(descriptors: Vec<TaskDescriptor>) -> (harness: Harness)
        ensures
            harness.wf(),
            harness@ == HarnessView::launched(descriptor_views(descriptors@)),
    {
        let ghost all = descriptor_views(descriptors@);
        let mut harness = Harness::new();
        proof {
            assert(all.take(0) =~= Seq::<DescriptorView>::empty());
        }
        for descriptor in it: descriptors
            invariant
                harness.wf(),
                harness@ == HarnessView::launched(all.take(it.index() as int)),
                all == descriptor_views(descriptors@),
        {
            harness.spawn(descriptor);
            proof {
                let k = it.index() as int;
                assert(harness@.tasks =~= HarnessView::launched(all.take(k + 1)).tasks);
            }
        }
        proof {
            assert(all.take(all.len() as int) =~= all);
        }
        harness
    }

    /// How many tasks were launched.
    pub fn len(&self) -> (n: usize)
        ensures
            n == self@.tasks.len(),
    {
        self.tasks.len()
    }

    /// How many launched tasks have not completed yet.
    pub fn outstanding(&self) -> (n: usize)
        requires
            self.wf(),
        ensures
            n == self@.outstanding(),
    {
        proof {
            lemma_outstanding(self@);
        }
        self.tasks.len() - self.completed.len()
    }

    /// Whether every launched task has completed.
    pub fn is_finished(&self) -> (finished: bool)
        requires
            self.wf(),
        ensures
            finished == self@.all_finished(),
            finished == (self@.outstanding() == 0),
    {
        proof {
            lemma_outstanding(self@);
        }
        self.tasks.len() == self.completed.len()
    }

    /// The handles of the completed tasks, in the order in which they
    /// completed.
    pub fn completed(&self) -> (handles: &Vec<usize>)
        ensures
            handles@.len() == self@.completed.len(),
            forall|i: int| 0 <= i < handles@.len() ==> handles@[i] as int == self@.completed[i],
    {
        &self.completed
    }

    /// The task behind `handle`, if there is one.
    pub fn task(&self, handle: usize) -> (task: Option<&Task>)
        requires
            self.wf(),
        ensures
            match task {
                Some(t) => self@.has(handle as int) && t.wf() && t@ == self@.tasks[handle as int],
                None => !self@.has(handle as int),
            },
    {
        if handle < self.tasks.len() {
            Some(&self.tasks[handle])
        } else {
            None
        }
    }

    /// Lets the task behind `handle` take its next step and returns that
    /// step. If the step is the task's completion, the handle is recorded as
    /// the latest completion. Returns nothing, and changes nothing, if the
    /// handle names no task or the task has already completed.
    pub fn resume(&mut self, handle: usize) -> (step: Option<Step>)
        requires
            old(self).wf(),
        ensures
            final(self).wf(),
            final(self)@ == old(self)@.resume(handle as int),
            step_view(step) == old(self)@.output(handle as int),
    {
        if handle >= self.tasks.len() {
            return None;
        }
        let step = self.tasks[handle].advance();
        proof {
            lemma_resume_wf(old(self)@, handle as int);
        }
        match step {
            None => {
                proof {
                    assert(self@.tasks =~= old(self)@.tasks);
                    assert(self@.completed =~= old(self)@.completed);
                }
                None
            },
            Some(Step::Complete { id }) => {
                self.completed.push(handle);
                proof {
                    assert(self@.tasks =~= old(self)@.resume(handle as int).tasks);
                    assert(self@.completed =~= old(self)@.resume(handle as int).completed);
                }
                Some(Step::Complete { id })
            },
            Some(other) => {
                proof {
                    assert(self@.tasks =~= old(self)@.resume(handle as int).tasks);
                    assert(self@.completed =~= old(self)@.resume(handle as int).completed);
                }
                Some(other)
            },
        }
    }
}

} // verus!
