//! One pending ring request, awaited by a task.
//!
//! The executor and the surrounding driver exchange plain values: a
//! [`Submission`] describes one request for the driver to perform, tagged
//! with the correlation id of the task that awaits it; a [`Completion`]
//! carries the request's result (and, for reads, the bytes read) back under
//! the same tag.  An [`IoOperation`] is the task-side awaitable: its first
//! poll emits the submission and suspends, its second poll consumes the
//! stashed result.  Polling it again after that is a protocol violation and
//! is excluded by contract.

use vstd::prelude::*;

verus! {

/// One request for the driver: open a file, read a block at an offset, or
/// close a file.
pub enum OpRequest {
    Open { path: String },
    Read { fd: i32, offset: usize, len: usize },
    Close { fd: i32 },
}

/// The mathematical form of a request.
pub enum OpRequestV {
    Open { path: Seq<char> },
    Read { fd: i32, offset: int, len: int },
    Close { fd: i32 },
}

impl View for OpRequest {
    type V = OpRequestV;

    open spec fn view(&self) -> OpRequestV {
        match self {
            OpRequest::Open { path } => OpRequestV::Open { path: path@ },
            OpRequest::Read { fd, offset, len } => OpRequestV::Read {
                fd: *fd,
                offset: *offset as int,
                len: *len as int,
            },
            OpRequest::Close { fd } => OpRequestV::Close { fd: *fd },
        }
    }
}

/// A request queued for the driver, tagged with the slot id of the task that
/// awaits its completion.
pub struct Submission {
    pub user_data: usize,
    pub req: OpRequest,
}

/// The mathematical form of a submission.
pub struct SubmissionV {
    pub user_data: usize,
    pub req: OpRequestV,
}

impl View for Submission {
    type V = SubmissionV;

    open spec fn view(&self) -> SubmissionV {
        SubmissionV { user_data: self.user_data, req: self.req@ }
    }
}

/// One finished request: the echoed tag, the raw result (non-negative on
/// success, a negated error code otherwise), and the bytes a read produced.
pub struct Completion {
    pub user_data: usize,
    pub result: i32,
    pub data: Vec<u8>,
}

/// The execution context threaded through every poll call: which task is
/// being polled, and the completion result stashed for it, if any.
pub struct ExecCtx {
    pub task_id: usize,
    pub result: Option<i32>,
}

/// Lifecycle of one request.
pub enum IoOpStateV {
    Inactive(OpRequestV),
    Submitted,
    Completed,
}

enum IoOpState {
    Inactive(OpRequest),
    Submitted,
    Completed,
}

/// A two-phase awaitable wrapping one ring request.
pub struct IoOperation {
    state: IoOpState,
}

/// What one poll of an [`IoOperation`] yields: the submission to queue, or
/// the request's result.
pub enum OpPoll {
    Pending(Submission),
    Ready(i32),
}

impl IoOperation {
    pub closed spec fn spec_state(&self) -> IoOpStateV {
        match &self.state {
            IoOpState::Inactive(req) => IoOpStateV::Inactive(req@),
            IoOpState::Submitted => IoOpStateV::Submitted,
            IoOpState::Completed => IoOpStateV::Completed,
        }
    }

    pub fn new(req: OpRequest) -> (r: Self)
        ensures
            r.spec_state() == IoOpStateV::Inactive(req@),
    {
        IoOperation { state: IoOpState::Inactive(req) }
    }

    /// The two-phase poll.  The first poll tags the request with the current
    /// task's id and hands it out for submission; the second returns the
    /// result the executor stashed in the context, consuming it.  A third
    /// poll is a protocol violation, excluded by the precondition.
    pub fn poll(&mut self, ctx: &mut ExecCtx) -> (r: OpPoll)
        requires
            !(old(self).spec_state() is Completed),
            old(self).spec_state() is Submitted ==> old(ctx).result is Some,
        ensures
            old(self).spec_state() matches IoOpStateV::Inactive(req) ==> {
                &&& final(self).spec_state() is Submitted
                &&& r matches OpPoll::Pending(s) && s.user_data == old(ctx).task_id && s.req@
                    == req
                &&& *final(ctx) == *old(ctx)
            },
            old(self).spec_state() is Submitted ==> {
                &&& final(self).spec_state() is Completed
                &&& r == OpPoll::Ready(old(ctx).result.unwrap())
                &&& final(ctx).task_id == old(ctx).task_id
                &&& final(ctx).result is None
            },
    {
        let mut tmp = IoOpState::Completed;
        core::mem::swap(&mut self.state, &mut tmp);
        match tmp {
            IoOpState::Inactive(req) => {
                self.state = IoOpState::Submitted;
                OpPoll::Pending(Submission { user_data: ctx.task_id, req })
            },
            IoOpState::Submitted => {
                let res = match ctx.result {
                    Some(v) => v,
                    None => vstd::pervasive::unreached(),
                };
                ctx.result = None;
                OpPoll::Ready(res)
            },
            IoOpState::Completed => vstd::pervasive::unreached(),
        }
    }
}

} // verus!
