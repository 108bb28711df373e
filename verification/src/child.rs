//! The processes of a started session and the signals that end them.

use vstd::prelude::*;

verus! {

/// A process identifier.
#[derive(Clone, Copy, Debug, PartialEq, Eq, Structural)]
pub struct Pid {
    pub raw: i32,
}

impl Pid {
    /// Wraps the number that the operating system gave a process.
    pub fn from_raw(raw: i32) -> (pid: Pid)
        ensures
            pid == (Pid { raw }),
    {
        Pid { raw }
    }

    /// The number that the operating system knows the process by.
    pub fn as_raw(self) -> (raw: i32)
        ensures
            raw == self.raw,
    {
        self.raw
    }
}

/// A signal that ends a process.
#[derive(Clone, Copy, Debug, PartialEq, Eq, Structural)]
pub enum Signal {
    /// The request to terminate, which a process may handle or ignore.
    Terminate,
    /// The unconditional termination, which a process cannot refuse.
    Kill,
}

/// One signal to deliver to one process.
#[derive(Clone, Copy, Debug, PartialEq, Eq, Structural)]
pub struct Delivery {
    pub target: Pid,
    pub signal: Signal,
}

/// The processes of a started session.
///
/// The worker that was spawned for the session turns into the session's
/// program once the handshake is over, and reports the process that the
/// program runs as. The handle remembers both: signals go to the process that
/// was reported, and the forceful one to the spawned process too.
#[derive(Debug)]
pub struct SessionChild {
    task: Pid,
    sub_task: Pid,
}

impl SessionChild {
    /// The worker process that was spawned for the session.
    pub closed spec fn task(&self) -> Pid {
        self.task
    }

    /// The process that the worker reported as the one the session runs as.
    pub closed spec fn sub_task(&self) -> Pid {
        self.sub_task
    }

    /// The handle of a session whose worker is `task` and which runs as
    /// `sub_task`.
    pub fn new(task: Pid, sub_task: Pid) -> (child: SessionChild)
        ensures
            child.task() == task,
            child.sub_task() == sub_task,
    {
        SessionChild { task, sub_task }
    }

    /// Whether `pid` is one of the two processes of this session.
    pub fn owns_pid(&self, pid: Pid) -> (owned: bool)
        ensures
            owned <==> pid == self.task() || pid == self.sub_task(),
    {
        self.task.raw == pid.raw || self.sub_task.raw == pid.raw
    }

    /// The signals that ask the session to end: the request to terminate, for
    /// the reported process alone.
    ///
    /// Delivery is best effort. The caller sends each signal and ignores a
    /// failure to do so, since the process may be gone already.
    pub fn term(&self) -> (signals: Vec<Delivery>)
        ensures
            signals@ == seq![(Delivery { target: self.sub_task(), signal: Signal::Terminate })],
    {
        let mut signals: Vec<Delivery> = Vec::new();
        signals.push(Delivery { target: self.sub_task, signal: Signal::Terminate });
        signals
    }

    /// The signals that end the session by force: the unconditional
    /// termination, first for the reported process, then for the worker.
    ///
    /// Delivery is best effort, as for [`SessionChild::term`].
    pub fn kill(&self) -> (signals: Vec<Delivery>)
        ensures
            signals@ == seq![
                (Delivery { target: self.sub_task(), signal: Signal::Kill }),
                (Delivery { target: self.task(), signal: Signal::Kill }),
            ],
    {
        let mut signals: Vec<Delivery> = Vec::new();
        signals.push(Delivery { target: self.sub_task, signal: Signal::Kill });
        signals.push(Delivery { target: self.task, signal: Signal::Kill });
        signals
    }
}

} // verus!
