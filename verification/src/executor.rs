//! The cooperative, single-threaded executor.
//!
//! An executor owns one [`TaskSlab`] and a queue of pending submissions.  The
//! surrounding driver owns the actual ring: it drains the submission queue
//! with [`Executor::take_submissions`], performs each request, and feeds the
//! resulting [`Completion`] back through [`Executor::poll`].  The executor
//! matches the completion's correlation id to the owning task's slot, resumes
//! the task, queues whatever it submits next, and frees the slot when the
//! task finishes.  Nothing runs outside a `spawn` or `poll` call, and the
//! number of live tasks never exceeds the concurrency window fixed at
//! construction.

use vstd::prelude::*;

use crate::collect::{add_records, AddrCollection};
use crate::io_op::{Completion, ExecCtx, OpRequestV, Submission, SubmissionV};
use crate::matcher::Matcher;
use crate::parser::MalformedFieldPolicy;
use crate::slab::TaskSlab;
use crate::task::{spec_resume, MailTask, TaskV};

verus! {

/// What one poll accomplished: no completion was at hand, a task ran and
/// suspended again, or a task ran to its end and its slot was freed.
pub enum ExecutorPollResult {
    WouldBlock,
    Polled,
    Finished,
}

/// Whether a spawn found room in the concurrency window.  `Exhausted` is a
/// flow-control signal, not an error: the caller queues the file and retries
/// after the next poll.
pub enum SpawnResult {
    Spawned,
    Exhausted,
}

/// One worker thread's executor.
pub struct Executor {
    slab: TaskSlab<MailTask>,
    pending: Vec<Submission>,
}

impl Executor {
    /// Every live task is well-formed and still running.
    pub closed spec fn wf(&self) -> bool {
        &&& self.slab.wf()
        &&& forall|id: usize|
            self.slab@.contains_key(id) ==> (#[trigger] self.slab@[id]).wf() && !(self.slab@[id]@
                is Done)
    }

    /// The live tasks, by slot id.
    pub closed spec fn spec_tasks(&self) -> Map<usize, TaskV> {
        self.slab@.map_values(|t: MailTask| t@)
    }

    pub closed spec fn spec_num_tasks(&self) -> int {
        self.slab.spec_len()
    }

    pub closed spec fn spec_max_tasks(&self) -> int {
        self.slab.spec_capacity()
    }

    /// The submissions queued for the driver, oldest first.
    pub closed spec fn spec_pending(&self) -> Seq<SubmissionV> {
        self.pending@.map_values(|s: Submission| s@)
    }

    /// An executor with a concurrency window of `queue_size` tasks.
    pub fn new(queue_size: u32) -> (r: Self)
        ensures
            r.wf(),
            r.spec_num_tasks() == 0,
            r.spec_max_tasks() == queue_size,
            r.spec_tasks() == Map::<usize, TaskV>::empty(),
            r.spec_pending() == Seq::<SubmissionV>::empty(),
    {
        let r = Executor { slab: TaskSlab::new(queue_size as usize), pending: Vec::new() };
        proof {
            assert(r.spec_tasks() =~= Map::<usize, TaskV>::empty());
            assert(r.spec_pending() =~= Seq::<SubmissionV>::empty());
        }
        r
    }

    /// The concurrency window: the most tasks that can be live at once.
    pub fn max_tasks(&self) -> (r: usize)
        ensures
            r == self.spec_max_tasks(),
    {
        self.slab.capacity()
    }

    /// How many tasks are live now.
    pub fn num_tasks(&self) -> (r: usize)
        ensures
            r == self.spec_num_tasks(),
    {
        self.slab.len()
    }

    /// Whether any task is still live.
    pub fn has_tasks(&self) -> (r: bool)
        ensures
            r == (self.spec_num_tasks() > 0),
    {
        self.slab.len() > 0
    }

    /// Whether `id` is the slot of a live task.  A completion whose tag fails
    /// this test matches no live task; feeding it to `poll` would be a
    /// protocol violation, so a driver must abort instead.
    pub fn has_task(&self, id: usize) -> (r: bool)
        ensures
            r == self.spec_tasks().contains_key(id),
    {
        self.slab.contains(id)
    }

    /// Spawns one per-file task: allocates a slot and performs the task's
    /// first poll step, which queues its `open` request under the slot's id.
    /// When the window is full the spawn fails with `Exhausted` and changes
    /// nothing; the number of live tasks never exceeds the window.
    pub fn spawn(&mut self, path: String) -> (r: SpawnResult)
        requires
            old(self).wf(),
        ensures
            final(self).wf(),
            final(self).spec_max_tasks() == old(self).spec_max_tasks(),
            final(self).spec_num_tasks() <= final(self).spec_max_tasks(),
            old(self).spec_num_tasks() == old(self).spec_max_tasks() ==> {
                &&& r is Exhausted
                &&& *final(self) == *old(self)
            },
            old(self).spec_num_tasks() < old(self).spec_max_tasks() ==> {
                &&& r is Spawned
                &&& final(self).spec_num_tasks() == old(self).spec_num_tasks() + 1
                &&& exists|id: usize|
                    ({
                        &&& !old(self).spec_tasks().contains_key(id)
                        &&& final(self).spec_tasks() == old(self).spec_tasks().insert(
                            id,
                            TaskV::Opening,
                        )
                        &&& final(self).spec_pending() == old(self).spec_pending().push(
                            (SubmissionV { user_data: id, req: OpRequestV::Open { path: path@ } }),
                        )
                    })
            },
    {
        proof {
            self.slab.lemma_len_le_capacity();
        }
        if self.slab.len() == self.slab.capacity() {
            SpawnResult::Exhausted
        } else {
            let ghost tasks0 = self.spec_tasks();
            let ghost pending0 = self.spec_pending();
            match self.slab.allocate(MailTask::Done) {
                Some(id) => {
                    let mut ctx = ExecCtx { task_id: id, result: None };
                    let (task, sub) = MailTask::start(path, &mut ctx);
                    let ghost subv = sub@;
                    let _ = self.slab.replace(id, task);
                    self.pending.push(sub);
                    proof {
                        self.slab.lemma_len_le_capacity();
                        assert(self.spec_tasks() =~= tasks0.insert(id, TaskV::Opening));
                        assert(self.spec_pending() =~= pending0.push(subv));
                        assert(!tasks0.contains_key(id));
                    }
                    SpawnResult::Spawned
                },
                None => vstd::pervasive::unreached(),
            }
        }
    }

    /// Hands the queued submissions to the driver, oldest first, leaving the
    /// queue empty.  The driver performs each request and answers with one
    /// completion per submission, echoing the `user_data` tag.
    pub fn take_submissions(&mut self) -> (r: Vec<Submission>)
        requires
            old(self).wf(),
        ensures
            final(self).wf(),
            r@.map_values(|s: Submission| s@) == old(self).spec_pending(),
            final(self).spec_pending() == Seq::<SubmissionV>::empty(),
            final(self).spec_tasks() == old(self).spec_tasks(),
            final(self).spec_num_tasks() == old(self).spec_num_tasks(),
            final(self).spec_max_tasks() == old(self).spec_max_tasks(),
    {
        let mut out: Vec<Submission> = Vec::new();
        core::mem::swap(&mut out, &mut self.pending);
        proof {
            assert(self.spec_pending() =~= Seq::<SubmissionV>::empty());
        }
        out
    }

    /// Drives one completion into the executor.  With no completion at hand
    /// (`None`), nothing runs and `WouldBlock` is reported.  Otherwise the
    /// completion's tag must name a live task: that task is resumed with the
    /// result; either it suspends on its next request, which is queued under
    /// the same tag (`Polled`), or it finished and its slot is freed
    /// (`Finished`).  Each record the task's scan matched is added to the
    /// collector.
    pub fn poll<M: Matcher>(
        &mut self,
        completion: Option<Completion>,
        matcher: &M,
        policy: MalformedFieldPolicy,
        collector: &mut AddrCollection,
    ) -> (r: ExecutorPollResult)
        requires
            old(self).wf(),
            old(collector).wf(),
            completion matches Some(c) ==> {
                &&& old(self).spec_tasks().contains_key(c.user_data)
                &&& ((old(self).spec_tasks()[c.user_data] is Reading && c.result > 0)
                    ==> c.data@.len() == c.result as int)
            },
        ensures
            final(self).wf(),
            final(collector).wf(),
            final(self).spec_max_tasks() == old(self).spec_max_tasks(),
            final(self).spec_num_tasks() <= final(self).spec_max_tasks(),
            completion is None ==> {
                &&& r is WouldBlock
                &&& *final(self) == *old(self)
                &&& *final(collector) == *old(collector)
            },
            completion matches Some(c) ==> ({
                let step = spec_resume(
                    *matcher,
                    policy,
                    old(self).spec_tasks()[c.user_data],
                    c.result,
                    c.data@,
                );
                &&& final(collector)@ == add_records(old(collector)@, step.emitted)
                &&& (step.next matches Some(v) ==> {
                    &&& r is Polled
                    &&& final(self).spec_tasks() == old(self).spec_tasks().insert(c.user_data, v)
                    &&& final(self).spec_num_tasks() == old(self).spec_num_tasks()
                    &&& final(self).spec_pending() == old(self).spec_pending().push(
                        SubmissionV { user_data: c.user_data, req: step.req.unwrap() },
                    )
                })
                &&& (step.next is None ==> {
                    &&& r is Finished
                    &&& final(self).spec_tasks() == old(self).spec_tasks().remove(c.user_data)
                    &&& final(self).spec_num_tasks() == old(self).spec_num_tasks() - 1
                    &&& final(self).spec_pending() == old(self).spec_pending()
                })
            }),
    {
        proof {
            self.slab.lemma_len_le_capacity();
        }
        match completion {
            None => ExecutorPollResult::WouldBlock,
            Some(c) => {
                let Completion { user_data: id, result, data } = c;
                let ghost tasks0 = self.spec_tasks();
                let ghost pending0 = self.spec_pending();
                let mut task = self.slab.replace(id, MailTask::Done);
                let mut ctx = ExecCtx { task_id: id, result: Some(result) };
                let sub_opt = task.resume(&mut ctx, data, matcher, policy, collector);
                match sub_opt {
                    Some(sub) => {
                        let ghost subv = sub@;
                        let _ = self.slab.replace(id, task);
                        self.pending.push(sub);
                        proof {
                            self.slab.lemma_len_le_capacity();
                            let step = spec_resume(*matcher, policy, tasks0[id], result, c.data@);
                            assert(self.spec_tasks() =~= tasks0.insert(id, step.next.unwrap()));
                            assert(self.spec_pending() =~= pending0.push(
                                SubmissionV { user_data: id, req: step.req.unwrap() },
                            ));
                        }
                        ExecutorPollResult::Polled
                    },
                    None => {
                        let _ = self.slab.remove(id);
                        proof {
                            self.slab.lemma_len_le_capacity();
                            assert(self.spec_tasks() =~= tasks0.remove(id));
                            assert(self.spec_pending() =~= pending0);
                        }
                        ExecutorPollResult::Finished
                    },
                }
            },
        }
    }
}

} // verus!
