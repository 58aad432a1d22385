//! The progress of one zero-copy transfer: the decisions between the calls
//! that move bytes from a file to a socket.
use vstd::prelude::*;

verus! {

/// What one call of the zero-copy primitive reported.
#[derive(Clone, Copy, Debug, PartialEq, Eq, Structural)]
pub enum SendOutcome {
    /// It moved this many bytes; 0 means the peer closed or the file ended.
    Sent(u64),
    /// It would block: call again.
    WouldBlock,
    /// It failed.
    Failed,
}

/// What to do after a call.
#[derive(Clone, Copy, Debug, PartialEq, Eq, Structural)]
pub enum SendStep {
    /// Call again for the bytes that remain, from where the last call ended.
    Again,
    /// Stop: this many bytes were sent.
    Finished(u64),
    /// Stop with an error, after this many bytes.
    Failed(u64),
}

/// A transfer of `total` bytes of which `remaining` are not sent yet.
#[derive(Clone, Copy, Debug, PartialEq, Eq, Structural)]
pub struct SendProgress {
    pub total: u64,
    pub remaining: u64,
}

impl SendProgress {
    pub open spec fn wf(self) -> bool {
        self.remaining <= self.total
    }

    pub open spec fn sent(self) -> u64 {
        (self.total - self.remaining) as u64
    }

    /// A transfer of `total` bytes, none sent yet.
    pub fn start(total: u64) -> (r: SendProgress)
        ensures
            r.wf(),
            r.total == total,
            r.remaining == total,
    {
        SendProgress { total, remaining: total }
    }

    /// Takes in what a call reported. A call that would block is retried;
    /// one that moves nothing ends the transfer; a count beyond what
    /// remained counts as all of it.
    pub fn step(&mut self, outcome: SendOutcome) -> (r: SendStep)
        requires
            old(self).wf(),
        ensures
            final(self).wf(),
            final(self).total == old(self).total,
            match outcome {
                SendOutcome::WouldBlock => r == SendStep::Again && *final(self) == *old(self),
                SendOutcome::Failed => r == SendStep::Failed(old(self).sent()) && *final(self)
                    == *old(self),
                SendOutcome::Sent(n) => if n == 0 {
                    r == SendStep::Finished(old(self).sent()) && *final(self) == *old(self)
                } else if n >= old(self).remaining {
                    r == SendStep::Finished(old(self).total) && final(self).remaining == 0
                } else {
                    r == SendStep::Again && final(self).remaining == old(self).remaining - n
                },
            },
    {
        match outcome {
            SendOutcome::WouldBlock => SendStep::Again,
            SendOutcome::Failed => SendStep::Failed(self.total - self.remaining),
            SendOutcome::Sent(n) => {
                if n == 0 {
                    SendStep::Finished(self.total - self.remaining)
                } else if n >= self.remaining {
                    self.remaining = 0;
                    SendStep::Finished(self.total)
                } else {
                    self.remaining = self.remaining - n;
                    SendStep::Again
                }
            },
        }
    }
}

} // verus!
