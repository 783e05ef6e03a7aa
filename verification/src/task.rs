//! The per-file task: a resumable state machine that opens a mail file,
//! reads it block by block through the streaming header parser, and closes
//! it.  Each state holds the [`IoOperation`] the task is suspended on; a
//! completion resumes the task, which runs until it either submits its next
//! request or finishes.

use vstd::prelude::*;

use crate::collect::{add_records, AddrCollection, AddressRecord};
use crate::io_op::{ExecCtx, IoOperation, OpPoll, OpRequest, OpRequestV, Submission};
use crate::matcher::Matcher;
use crate::parser::{process_mail_header, spec_scan, HeaderParseResult, MalformedFieldPolicy};

verus! {

/// How many bytes each read request asks for.
pub const READ_BLOCK_SIZE: usize = 4 * 1024;

/// The per-file parsing task.  `Done` is the terminal state a finished task
/// is left in until the executor frees its slot.
pub enum MailTask {
    Opening { op: IoOperation },
    Reading { op: IoOperation, fd: i32, buf: Vec<u8>, pos: usize },
    Closing { op: IoOperation },
    Done,
}

/// The mathematical form of a task's state.
pub enum TaskV {
    Opening,
    Reading { fd: i32, buf: Seq<u8>, pos: int },
    Closing,
    Done,
}

impl View for MailTask {
    type V = TaskV;

    closed spec fn view(&self) -> TaskV {
        match self {
            MailTask::Opening { .. } => TaskV::Opening,
            MailTask::Reading { op, fd, buf, pos } => TaskV::Reading {
                fd: *fd,
                buf: buf@,
                pos: *pos as int,
            },
            MailTask::Closing { .. } => TaskV::Closing,
            MailTask::Done => TaskV::Done,
        }
    }
}

/// What resuming a task does: the state it moves to (`None` when it
/// finishes), the request it submits next, and the matched records it hands
/// to the collector.
pub struct TaskStepV {
    pub next: Option<TaskV>,
    pub req: Option<OpRequestV>,
    pub emitted: Seq<AddressRecord>,
}

/// The task's transition function, from state and completion result (with
/// the bytes a read produced) to its next step.
///
/// - A failed `open` finishes the task at once; other files are unaffected.
/// - A successful `open` starts reading at offset zero.
/// - A failed read, or end of file, submits `close`.
/// - Read bytes are appended to the buffer and scanned; reaching the end of
///   the headers submits `close`, otherwise the next block is requested.
/// - The `close` completion finishes the task whatever its result.
pub open spec fn spec_resume<M: Matcher>(m: M, policy: MalformedFieldPolicy, t: TaskV, result: i32, data: Seq<u8>) -> TaskStepV {
    match t {
        TaskV::Opening => {
            if result < 0 {
                TaskStepV { next: None, req: None, emitted: Seq::empty() }
            } else {
                TaskStepV {
                    next: Some(TaskV::Reading { fd: result, buf: Seq::empty(), pos: 0 }),
                    req: Some(
                        OpRequestV::Read { fd: result, offset: 0, len: READ_BLOCK_SIZE as int },
                    ),
                    emitted: Seq::empty(),
                }
            }
        },
        TaskV::Reading { fd, buf, pos } => {
            if result <= 0 {
                TaskStepV {
                    next: Some(TaskV::Closing),
                    req: Some(OpRequestV::Close { fd }),
                    emitted: Seq::empty(),
                }
            } else {
                let buf2 = buf + data;
                let s = spec_scan(m, policy, buf2, pos);
                if s.2 {
                    TaskStepV {
                        next: Some(TaskV::Closing),
                        req: Some(OpRequestV::Close { fd }),
                        emitted: s.0,
                    }
                } else {
                    TaskStepV {
                        next: Some(TaskV::Reading { fd, buf: buf2, pos: s.1 }),
                        req: Some(
                            OpRequestV::Read {
                                fd,
                                offset: buf2.len() as int,
                                len: READ_BLOCK_SIZE as int,
                            },
                        ),
                        emitted: s.0,
                    }
                }
            }
        },
        TaskV::Closing => TaskStepV { next: None, req: None, emitted: Seq::empty() },
        TaskV::Done => TaskStepV { next: None, req: None, emitted: Seq::empty() },
    }
}

impl MailTask {
    /// A live task is suspended on a submitted operation, and its scan
    /// position lies within its buffer.
    pub closed spec fn wf(&self) -> bool {
        match self {
            MailTask::Opening { op } => op.spec_state() is Submitted,
            MailTask::Reading { op, fd, buf, pos } => op.spec_state() is Submitted && *pos as int
                <= buf@.len(),
            MailTask::Closing { op } => op.spec_state() is Submitted,
            MailTask::Done => true,
        }
    }

    /// Creates the task for one file and performs its first poll step, which
    /// submits the `open` request under the context's task id.
    pub fn start(path: String, ctx: &mut ExecCtx) -> (r: (MailTask, Submission))
        ensures
            r.0.wf(),
            r.0@ is Opening,
            r.1.user_data == old(ctx).task_id,
            r.1.req@ == (OpRequestV::Open { path: path@ }),
            *final(ctx) == *old(ctx),
    {
        let mut op = IoOperation::new(OpRequest::Open { path });
        let sub = match op.poll(ctx) {
            OpPoll::Pending(s) => s,
            OpPoll::Ready(_) => vstd::pervasive::unreached(),
        };
        (MailTask::Opening { op }, sub)
    }

    /// Resumes the task with the completion result stashed in the context;
    /// `data` carries the bytes a read completion produced.  Returns the next
    /// submission while the task suspends again, or `None` once it finished;
    /// a finished task rests in its terminal state until its slot is freed.
    pub fn resume<M: Matcher>(
        &mut self,
        ctx: &mut ExecCtx,
        data: Vec<u8>,
        matcher: &M,
        policy: MalformedFieldPolicy,
        collector: &mut AddrCollection,
    ) -> (r: Option<Submission>)
        requires
            old(self).wf(),
            !(old(self)@ is Done),
            old(ctx).result is Some,
            old(collector).wf(),
            (old(self)@ is Reading && old(ctx).result.unwrap() > 0) ==> data@.len() == old(
                ctx,
            ).result.unwrap() as int,
        ensures
            final(self).wf(),
            final(collector).wf(),
            final(ctx).task_id == old(ctx).task_id,
            ({
                let step = spec_resume(*matcher, policy, old(self)@, old(ctx).result.unwrap(), data@);
                &&& (r is Some) == (step.next is Some)
                &&& (step.next matches Some(v) ==> final(self)@ == v)
                &&& (step.next is None ==> final(self)@ is Done)
                &&& (r matches Some(s) ==> s.user_data == old(ctx).task_id && step.req == Some(
                    s.req@,
                ))
                &&& final(collector)@ == add_records(old(collector)@, step.emitted)
            }),
    {
        let mut cur = MailTask::Done;
        core::mem::swap(self, &mut cur);
        match cur {
            MailTask::Opening { mut op } => {
                let res = match op.poll(ctx) {
                    OpPoll::Ready(v) => v,
                    OpPoll::Pending(_) => vstd::pervasive::unreached(),
                };
                if res < 0 {
                    None
                } else {
                    let mut op2 = IoOperation::new(
                        OpRequest::Read { fd: res, offset: 0, len: READ_BLOCK_SIZE },
                    );
                    let sub = match op2.poll(ctx) {
                        OpPoll::Pending(s) => s,
                        OpPoll::Ready(_) => vstd::pervasive::unreached(),
                    };
                    *self = MailTask::Reading { op: op2, fd: res, buf: Vec::new(), pos: 0 };
                    Some(sub)
                }
            },
            MailTask::Reading { mut op, fd, mut buf, mut pos } => {
                let res = match op.poll(ctx) {
                    OpPoll::Ready(v) => v,
                    OpPoll::Pending(_) => vstd::pervasive::unreached(),
                };
                if res <= 0 {
                    let mut op2 = IoOperation::new(OpRequest::Close { fd });
                    let sub = match op2.poll(ctx) {
                        OpPoll::Pending(s) => s,
                        OpPoll::Ready(_) => vstd::pervasive::unreached(),
                    };
                    *self = MailTask::Closing { op: op2 };
                    Some(sub)
                } else {
                    let mut data = data;
                    buf.append(&mut data);
                    match process_mail_header(buf.as_slice(), &mut pos, matcher, policy, collector) {
                        HeaderParseResult::Done => {
                            let mut op2 = IoOperation::new(OpRequest::Close { fd });
                            let sub = match op2.poll(ctx) {
                                OpPoll::Pending(s) => s,
                                OpPoll::Ready(_) => vstd::pervasive::unreached(),
                            };
                            *self = MailTask::Closing { op: op2 };
                            Some(sub)
                        },
                        HeaderParseResult::NeedMore => {
                            let next_offset = buf.len();
                            let mut op2 = IoOperation::new(
                                OpRequest::Read { fd, offset: next_offset, len: READ_BLOCK_SIZE },
                            );
                            let sub = match op2.poll(ctx) {
                                OpPoll::Pending(s) => s,
                                OpPoll::Ready(_) => vstd::pervasive::unreached(),
                            };
                            *self = MailTask::Reading { op: op2, fd, buf, pos };
                            Some(sub)
                        },
                    }
                }
            },
            MailTask::Closing { mut op } => {
                let _res = match op.poll(ctx) {
                    OpPoll::Ready(v) => v,
                    OpPoll::Pending(_) => vstd::pervasive::unreached(),
                };
                None
            },
            MailTask::Done => vstd::pervasive::unreached(),
        }
    }
}

} // verus!
