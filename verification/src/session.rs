//! The handshake that leads from a spawned worker to a running session.
//!
//! A [`Session`] decides and remembers; it does not send or receive. Each
//! step of the handshake is one request and one reply:
//!
//! | request | replies that the step allows |
//! |---|---|
//! | `InitiateLogin`, `PamResponse`, `Cancel` | `PamMessage`, `Success`, `Error` |
//! | `Args` | `Success`, `Error` |
//! | `Start` | `FinalChildPid`, `Error` |
//!
//! The functions that issue a request hand the message to the caller, who
//! sends it. The caller hands what it receives to the function that accepts
//! the reply of that step. [`SessionView`] with its transition functions is
//! the model: every function of [`Session`] is stated as one of them.

use vstd::prelude::*;
use crate::child::{Pid, SessionChild};
use crate::error::{Error, ErrorView, Step};
use crate::message::{
    ParentToSessionChild, QuestionStyle, ReplyView, RequestView, SessionChildToParent,
};

verus! {

/// What a session waits for, as far as a caller can observe it.
#[derive(Debug, PartialEq, Eq)]
pub enum SessionState {
    /// The worker asked this question and waits for the answer.
    Question(QuestionStyle, String),
    /// The authentication is done and the session can be given its arguments.
    Ready,
}

/// The value of a [`SessionState`].
pub ghost enum StateView {
    Question(QuestionStyle, Seq<char>),
    Ready,
}

impl View for SessionState {
    type V = StateView;

    open spec fn view(&self) -> StateView {
        match self {
            SessionState::Question(style, text) => StateView::Question(*style, text@),
            SessionState::Ready => StateView::Ready,
        }
    }
}

/// The value of a result whose error is an [`Error`].
pub open spec fn result_view<T: View>(result: Result<T, Error>) -> Result<T::V, ErrorView> {
    match result {
        Ok(value) => Ok(value@),
        Err(error) => Err(error@),
    }
}

/// The error for a reply that the step `awaited` does not allow.
pub open spec fn violation(awaited: Step, reply: ReplyView) -> ErrorView {
    ErrorView::ProtocolViolation { awaited, received: reply.kind() }
}

/// What a reply means while the authentication is in progress.
pub open spec fn authentication_outcome(reply: ReplyView) -> Result<StateView, ErrorView> {
    match reply {
        ReplyView::PamMessage { style, text } => Ok(StateView::Question(style, text)),
        ReplyView::Success => Ok(StateView::Ready),
        ReplyView::Error(error) => Err(error),
        ReplyView::FinalChildPid(_) => Err(violation(Step::Authentication, reply)),
    }
}

/// What a reply means after the arguments were handed over.
pub open spec fn arguments_outcome(reply: ReplyView) -> Result<(), ErrorView> {
    match reply {
        ReplyView::Success => Ok(()),
        ReplyView::Error(error) => Err(error),
        _ => Err(violation(Step::Arguments, reply)),
    }
}

/// The process that a `FinalChildPid` reports: the number, cut to the width
/// of a process identifier.
pub open spec fn reported_pid(raw: u64) -> Pid {
    Pid { raw: raw as i32 }
}

/// What a reply means after the session was told to start, given how the
/// shutdown of the channel went: the reported process, or the failure.
pub open spec fn start_outcome(reply: ReplyView, shutdown: Result<(), ErrorView>) -> Result<
    Pid,
    ErrorView,
> {
    match shutdown {
        Err(error) => Err(error),
        Ok(_) => match reply {
            ReplyView::FinalChildPid(raw) => Ok(reported_pid(raw)),
            ReplyView::Error(error) => Err(error),
            _ => Err(violation(Step::Start, reply)),
        },
    }
}

/// The request that an answer to a prompt becomes: the response, or the
/// cancellation where there is no answer.
pub open spec fn answer_request(answer: Option<Seq<char>>) -> RequestView {
    match answer {
        Some(resp) => RequestView::PamResponse { resp },
        None => RequestView::Cancel,
    }
}

/// The text of an optional answer.
pub open spec fn text_view(answer: Option<String>) -> Option<Seq<char>> {
    match answer {
        Some(text) => Some(text@),
        None => None,
    }
}

/// The value of a [`Session`]: the model that its functions are stated over.
pub ghost struct SessionView {
    /// The worker process.
    pub task: Pid,
    /// The reply that was received last and not yet superseded by a request.
    pub last_msg: Option<ReplyView>,
    /// Whether the channel to the worker can still carry a request.
    pub open: bool,
}

impl SessionView {
    /// The session once `request` has been issued, and what the caller is
    /// given to send. The buffered reply belongs to the request before, so it
    /// is dropped. On a channel that was shut down nothing can be sent.
    pub open spec fn issue(self, request: RequestView) -> (SessionView, Result<
        RequestView,
        ErrorView,
    >) {
        (
            SessionView { last_msg: None, ..self },
            if self.open {
                Ok(request)
            } else {
                Err(ErrorView::Closed)
            },
        )
    }

    /// The session once `reply` has arrived: the reply is buffered.
    pub open spec fn buffer(self, reply: ReplyView) -> SessionView {
        SessionView { last_msg: Some(reply), ..self }
    }

    /// What the buffered reply says of the authentication. Without a buffered
    /// reply there is nothing to say before the next one arrives, and on a
    /// channel that was shut down none will.
    pub open spec fn state(self) -> Option<Result<StateView, ErrorView>> {
        match self.last_msg {
            Some(reply) => Some(authentication_outcome(reply)),
            None => if self.open {
                None
            } else {
                Some(Err(ErrorView::Closed))
            },
        }
    }

    /// The session once the reply to `Start` has been taken and the channel
    /// shut down: closed, unless the shutdown failed.
    pub open spec fn finish(self, shutdown: Result<(), ErrorView>) -> SessionView {
        SessionView { open: self.open && shutdown is Err, ..self }
    }
}

/// The controller's side of the handshake with one worker.
#[derive(Debug)]
pub struct Session {
    task: Pid,
    last_msg: Option<SessionChildToParent>,
    open: bool,
}

impl View for Session {
    type V = SessionView;

    closed spec fn view(&self) -> SessionView {
        SessionView {
            task: self.task,
            last_msg: match self.last_msg {
                Some(reply) => Some(reply@),
                None => None,
            },
            open: self.open,
        }
    }
}

/// What `reply` means while the authentication is in progress: the state to
/// show, the failure that the worker reported, or a protocol violation.
pub fn authentication_state(reply: &SessionChildToParent) -> (state: Result<SessionState, Error>)
    ensures
        result_view(state) == authentication_outcome(reply@),
{
    match reply {
        SessionChildToParent::PamMessage { style, text } => Ok(
            SessionState::Question(*style, text.clone()),
        ),
        SessionChildToParent::Success => Ok(SessionState::Ready),
        SessionChildToParent::Error(error) => Err(error.clone()),
        SessionChildToParent::FinalChildPid(_) => Err(
            Error::ProtocolViolation { awaited: Step::Authentication, received: reply.kind() },
        ),
    }
}

impl Session {
    /// The session with a worker that was started as the external process
    /// `task`, before any request.
    pub fn new_external(task: Pid) -> (session: Session)
        ensures
            session@ == (SessionView { task, last_msg: None, open: true }),
    {
        Session { task, last_msg: None, open: true }
    }

    fn issue(&mut self, request: ParentToSessionChild) -> (issued: Result<
        ParentToSessionChild,
        Error,
    >)
        ensures
            (final(self)@, result_view(issued)) == old(self)@.issue(request@),
    {
        self.last_msg = None;
        if self.open {
            Ok(request)
        } else {
            Err(Error::Closed)
        }
    }

    /// Initiates the login of `user`, which makes the worker begin the
    /// authentication. The caller sends the request that is returned.
    pub fn initiate(
        &mut self,
        service: &str,
        class: &str,
        user: &str,
        authenticate: bool,
    ) -> (request: Result<ParentToSessionChild, Error>)
        ensures
            (final(self)@, result_view(request)) == old(self)@.issue(
                (RequestView::InitiateLogin {
                    service: service@,
                    class: class@,
                    user: user@,
                    authenticate,
                }),
            ),
    {
        self.issue(
            ParentToSessionChild::InitiateLogin {
                service: service.to_owned(),
                class: class.to_owned(),
                user: user.to_owned(),
                authenticate,
            },
        )
    }

    /// The state that the buffered reply stands for, or `None` where the
    /// caller has to receive the next reply and hand it to
    /// [`Session::accept_reply`] first. The session stays as it is, so the
    /// answer is the same however often it is asked for.
    pub fn get_state(&mut self) -> (state: Option<Result<SessionState, Error>>)
        ensures
            final(self)@ == old(self)@,
            match state {
                Some(result) => old(self)@.state() == Some(result_view(result)),
                None => old(self)@.state() is None,
            },
    {
        match &self.last_msg {
            Some(reply) => Some(authentication_state(reply)),
            None => if self.open {
                None
            } else {
                Some(Err(Error::Closed))
            },
        }
    }

    /// Takes a reply that arrived while the authentication is in progress:
    /// buffers it and says what it means.
    pub fn accept_reply(&mut self, reply: SessionChildToParent) -> (state: Result<
        SessionState,
        Error,
    >)
        ensures
            final(self)@ == old(self)@.buffer(reply@),
            result_view(state) == authentication_outcome(reply@),
    {
        let state = authentication_state(&reply);
        self.last_msg = Some(reply);
        state
    }

    /// Cancels the authentication in progress. The caller sends the request
    /// that is returned.
    pub fn cancel(&mut self) -> (request: Result<ParentToSessionChild, Error>)
        ensures
            (final(self)@, result_view(request)) == old(self)@.issue(RequestView::Cancel),
    {
        self.issue(ParentToSessionChild::Cancel)
    }

    /// Answers the prompt that the worker sent, or cancels the authentication
    /// where `answer` is `None`. The caller sends the request that is
    /// returned.
    pub fn post_answer(&mut self, answer: Option<String>) -> (request: Result<
        ParentToSessionChild,
        Error,
    >)
        ensures
            (final(self)@, result_view(request)) == old(self)@.issue(
                answer_request(text_view(answer)),
            ),
    {
        let request = match answer {
            Some(resp) => ParentToSessionChild::PamResponse { resp },
            None => ParentToSessionChild::Cancel,
        };
        self.issue(request)
    }

    /// Hands over the arguments that the session will be started with. The
    /// caller sends the request that is returned, receives the reply and
    /// gives it to [`Session::accept_args_reply`].
    pub fn send_args(&mut self, cmd: Vec<String>, env: Vec<String>, vt: usize) -> (request: Result<
        ParentToSessionChild,
        Error,
    >)
        ensures
            (final(self)@, result_view(request)) == old(self)@.issue(
                (RequestView::Args { cmd: cmd.deep_view(), env: env.deep_view(), vt }),
            ),
    {
        self.issue(ParentToSessionChild::Args { cmd, env, vt })
    }

    /// Takes the reply to the arguments: buffers it and says whether the
    /// worker accepted them.
    pub fn accept_args_reply(&mut self, reply: SessionChildToParent) -> (accepted: Result<
        (),
        Error,
    >)
        ensures
            final(self)@ == old(self)@.buffer(reply@),
            result_view(accepted) == arguments_outcome(reply@),
    {
        let accepted = match &reply {
            SessionChildToParent::Success => Ok(()),
            SessionChildToParent::Error(error) => Err(error.clone()),
            _ => Err(Error::ProtocolViolation { awaited: Step::Arguments, received: reply.kind() }),
        };
        self.last_msg = Some(reply);
        accepted
    }

    /// Tells the worker to start the session. The caller sends the request
    /// that is returned, receives the reply, shuts the channel down for both
    /// directions and gives the reply and the outcome of the shutdown to
    /// [`Session::accept_start_reply`].
    pub fn start(&mut self) -> (request: Result<ParentToSessionChild, Error>)
        ensures
            (final(self)@, result_view(request)) == old(self)@.issue(RequestView::Start),
    {
        self.issue(ParentToSessionChild::Start)
    }

    /// Takes the reply to `Start` and the outcome of shutting the channel
    /// down. A failed shutdown is the result, whatever the reply was.
    /// Otherwise the handshake is over: the result is the handle of the
    /// processes of the session, the failure that the worker reported, or a
    /// protocol violation, and nothing more can be sent.
    pub fn accept_start_reply(
        &mut self,
        reply: SessionChildToParent,
        shutdown: Result<(), Error>,
    ) -> (started: Result<SessionChild, Error>)
        ensures
            final(self)@ == old(self)@.finish(result_view(shutdown)),
            match started {
                Ok(child) => child.task() == old(self)@.task && start_outcome(
                    reply@,
                    result_view(shutdown),
                ) == Ok::<Pid, ErrorView>(child.sub_task()),
                Err(error) => start_outcome(reply@, result_view(shutdown)) == Err::<Pid, ErrorView>(
                    error@,
                ),
            },
    {
        match shutdown {
            Err(error) => Err(error),
            Ok(_) => {
                self.open = false;
                match reply {
                    SessionChildToParent::FinalChildPid(raw) => {
                        let sub_task = Pid::from_raw(#[verifier::truncate] (raw as i32));
                        Ok(SessionChild::new(self.task, sub_task))
                    },
                    SessionChildToParent::Error(error) => Err(error),
                    _ => Err(
                        Error::ProtocolViolation { awaited: Step::Start, received: reply.kind() },
                    ),
                }
            },
        }
    }
}

/// A buffered reply is kept: once a reply was accepted, the state that is
/// asked for is what that reply stands for, until the next request.
pub proof fn lemma_state_after_reply(session: SessionView, reply: ReplyView)
    ensures
        session.buffer(reply).state() == Some(authentication_outcome(reply)),
{
}

/// A request supersedes the reply before it: once any request was issued,
/// there is no state to report before the next reply, and on a channel that
/// was shut down the state is that failure.
pub proof fn lemma_state_after_request(session: SessionView, request: RequestView)
    ensures
        session.open ==> session.issue(request).0.state() is None,
        !session.open ==> session.issue(request).0.state() == Some(
            Err::<StateView, ErrorView>(ErrorView::Closed),
        ),
{
}

/// To answer a prompt with no answer is to cancel: both leave the same
/// session and hand out the same request.
pub proof fn lemma_no_answer_is_cancel(session: SessionView)
    ensures
        session.issue(answer_request(None)) == session.issue(RequestView::Cancel),
{
}

/// A failure that the worker reports ends the handshake at whichever step it
/// arrives, and reaches the caller as it was sent.
pub proof fn lemma_worker_error_is_passed_on(error: ErrorView)
    ensures
        authentication_outcome(ReplyView::Error(error)) == Err::<StateView, ErrorView>(error),
        arguments_outcome(ReplyView::Error(error)) == Err::<(), ErrorView>(error),
        start_outcome(ReplyView::Error(error), Ok(())) == Err::<Pid, ErrorView>(error),
{
}

/// Once the channel was shut down, no request is handed out any more.
pub proof fn lemma_nothing_sent_after_shutdown(session: SessionView, request: RequestView)
    ensures
        session.finish(Ok(())).issue(request).1 == Err::<RequestView, ErrorView>(ErrorView::Closed),
{
}

/// A reported process number that fits a process identifier is that
/// identifier.
pub proof fn lemma_reported_pid_in_range(raw: u64)
    requires
        raw <= i32::MAX,
    ensures
        reported_pid(raw).raw == raw,
{
    assert(raw <= 0x7fff_ffffu64 ==> (raw as i32) as int == raw as int) by (bit_vector);
}

} // verus!
