use greetd_session::child::{Delivery, Pid, Signal};
use greetd_session::error::{Error, ReplyKind, Step};
use greetd_session::message::{ParentToSessionChild, QuestionStyle, SessionChildToParent};
use greetd_session::session::{authentication_state, Session, SessionState};
use greetd_session::wire::{decode_reply, decode_request, encode_reply, encode_request};

fn text(s: &str) -> String {
    s.to_string()
}

/// What the worker finds in the datagram that carries `request`.
fn sent(request: Result<ParentToSessionChild, Error>) -> ParentToSessionChild {
    let datagram = encode_request(&request.unwrap()).unwrap();
    decode_request(&datagram).unwrap()
}

/// What the controller finds in the datagram that carries `reply`.
fn received(reply: SessionChildToParent) -> SessionChildToParent {
    let datagram = encode_reply(&reply).unwrap();
    decode_reply(&datagram).unwrap()
}

fn prompt() -> SessionChildToParent {
    SessionChildToParent::PamMessage { style: QuestionStyle::Prompt, text: text("Password:") }
}

fn failure() -> Error {
    Error::Protocol(text("authentication failure"))
}

#[test]
fn login_with_one_prompt() {
    let mut session = Session::new_external(Pid::from_raw(100));
    let request = sent(session.initiate("login", "x", "alice", true));
    assert_eq!(
        request,
        ParentToSessionChild::InitiateLogin {
            service: text("login"),
            class: text("x"),
            user: text("alice"),
            authenticate: true,
        }
    );
    assert_eq!(session.get_state(), None);

    let question = SessionState::Question(QuestionStyle::Prompt, text("Password:"));
    assert_eq!(session.accept_reply(received(prompt())), Ok(SessionState::Question(
        QuestionStyle::Prompt,
        text("Password:")
    )));
    assert_eq!(session.get_state(), Some(Ok(question)));

    let request = sent(session.post_answer(Some(text("secret"))));
    assert_eq!(request, ParentToSessionChild::PamResponse { resp: text("secret") });
    assert_eq!(session.get_state(), None);

    assert_eq!(session.accept_reply(received(SessionChildToParent::Success)), Ok(SessionState::Ready));
    assert_eq!(session.get_state(), Some(Ok(SessionState::Ready)));
}

#[test]
fn arguments_then_start() {
    let mut session = Session::new_external(Pid::from_raw(100));
    let request = sent(session.send_args(vec![text("/bin/sh")], vec![], 1));
    assert_eq!(
        request,
        ParentToSessionChild::Args { cmd: vec![text("/bin/sh")], env: vec![], vt: 1 }
    );
    assert_eq!(session.accept_args_reply(received(SessionChildToParent::Success)), Ok(()));

    assert_eq!(sent(session.start()), ParentToSessionChild::Start);
    let child = session
        .accept_start_reply(received(SessionChildToParent::FinalChildPid(4242)), Ok(()))
        .unwrap();
    assert!(child.owns_pid(Pid::from_raw(4242)));
    assert!(child.owns_pid(Pid::from_raw(100)));
    assert!(!child.owns_pid(Pid::from_raw(4243)));

    assert_eq!(session.initiate("login", "x", "alice", true), Err(Error::Closed));
    assert_eq!(session.post_answer(Some(text("secret"))), Err(Error::Closed));
    assert_eq!(session.post_answer(None), Err(Error::Closed));
    assert_eq!(session.cancel(), Err(Error::Closed));
    assert_eq!(session.send_args(vec![text("/bin/sh")], vec![], 1), Err(Error::Closed));
    assert_eq!(session.start(), Err(Error::Closed));
    assert_eq!(session.get_state(), Some(Err(Error::Closed)));
}

#[test]
fn a_failure_of_the_worker_is_passed_on_at_every_step() {
    let mut session = Session::new_external(Pid::from_raw(100));
    session.initiate("login", "x", "alice", true).unwrap();
    let reply = received(SessionChildToParent::Error(failure()));
    assert_eq!(session.accept_reply(reply), Err(failure()));
    assert_eq!(session.get_state(), Some(Err(failure())));
    assert_eq!(session.get_state(), Some(Err(failure())));

    let mut session = Session::new_external(Pid::from_raw(100));
    session.send_args(vec![text("/bin/sh")], vec![], 1).unwrap();
    let reply = received(SessionChildToParent::Error(failure()));
    assert_eq!(session.accept_args_reply(reply), Err(failure()));
    assert_eq!(session.get_state(), Some(Err(failure())));

    let mut session = Session::new_external(Pid::from_raw(100));
    session.start().unwrap();
    let reply = received(SessionChildToParent::Error(failure()));
    assert_eq!(session.accept_start_reply(reply, Ok(())).err(), Some(failure()));

    let other = Error::Io(text("worker lost its terminal"));
    let mut session = Session::new_external(Pid::from_raw(100));
    assert_eq!(session.accept_reply(SessionChildToParent::Error(other.clone())), Err(other));
}

#[test]
fn the_state_is_the_same_however_often_it_is_asked_for() {
    let mut session = Session::new_external(Pid::from_raw(100));
    assert_eq!(session.get_state(), None);
    assert_eq!(session.get_state(), None);
    session.initiate("login", "x", "alice", true).unwrap();
    let first = session.accept_reply(prompt());
    let second = session.get_state();
    let third = session.get_state();
    assert_eq!(second, Some(first));
    assert_eq!(third, second);
    session.accept_reply(SessionChildToParent::Success).unwrap();
    assert_eq!(session.get_state(), Some(Ok(SessionState::Ready)));
    assert_eq!(session.get_state(), Some(Ok(SessionState::Ready)));
}

#[test]
fn no_answer_is_a_cancellation() {
    let mut one = Session::new_external(Pid::from_raw(100));
    let mut other = Session::new_external(Pid::from_raw(100));
    one.accept_reply(prompt()).unwrap();
    other.accept_reply(prompt()).unwrap();
    let cancelled = one.cancel();
    let unanswered = other.post_answer(None);
    assert_eq!(cancelled, Ok(ParentToSessionChild::Cancel));
    assert_eq!(unanswered, cancelled);
    assert_eq!(one.get_state(), None);
    assert_eq!(other.get_state(), None);
    assert_eq!(
        encode_request(&cancelled.unwrap()).unwrap(),
        encode_request(&unanswered.unwrap()).unwrap()
    );
}

#[test]
fn every_request_drops_the_reply_before_it() {
    let mut session = Session::new_external(Pid::from_raw(100));
    session.accept_reply(prompt()).unwrap();
    session.initiate("login", "x", "alice", true).unwrap();
    assert_eq!(session.get_state(), None);

    session.accept_reply(prompt()).unwrap();
    session.post_answer(Some(text("secret"))).unwrap();
    assert_eq!(session.get_state(), None);

    session.accept_reply(prompt()).unwrap();
    session.cancel().unwrap();
    assert_eq!(session.get_state(), None);

    session.accept_reply(SessionChildToParent::Success).unwrap();
    session.send_args(vec![text("/bin/sh")], vec![], 1).unwrap();
    assert_eq!(session.get_state(), None);

    session.accept_args_reply(SessionChildToParent::Success).unwrap();
    assert_eq!(session.get_state(), Some(Ok(SessionState::Ready)));
    session.start().unwrap();
    assert_eq!(session.get_state(), None);
}

fn violation(awaited: Step, received: ReplyKind) -> Error {
    Error::ProtocolViolation { awaited, received }
}

#[test]
fn a_reply_that_the_step_does_not_allow_is_a_violation() {
    let mut session = Session::new_external(Pid::from_raw(100));
    assert_eq!(
        session.accept_reply(SessionChildToParent::FinalChildPid(4242)),
        Err(violation(Step::Authentication, ReplyKind::FinalChildPid))
    );
    assert_eq!(
        session.get_state(),
        Some(Err(violation(Step::Authentication, ReplyKind::FinalChildPid)))
    );
    assert_eq!(
        authentication_state(&SessionChildToParent::FinalChildPid(0)),
        Err(violation(Step::Authentication, ReplyKind::FinalChildPid))
    );

    assert_eq!(
        session.accept_args_reply(prompt()),
        Err(violation(Step::Arguments, ReplyKind::PamMessage))
    );
    assert_eq!(
        session.accept_args_reply(SessionChildToParent::FinalChildPid(4242)),
        Err(violation(Step::Arguments, ReplyKind::FinalChildPid))
    );

    let mut session = Session::new_external(Pid::from_raw(100));
    assert_eq!(
        session.accept_start_reply(SessionChildToParent::Success, Ok(())).err(),
        Some(violation(Step::Start, ReplyKind::Success))
    );
    let mut session = Session::new_external(Pid::from_raw(100));
    assert_eq!(
        session.accept_start_reply(prompt(), Ok(())).err(),
        Some(violation(Step::Start, ReplyKind::PamMessage))
    );
    assert_eq!(session.cancel(), Err(Error::Closed));
}

#[test]
fn a_failed_shutdown_is_the_result_of_the_start() {
    let broken = Error::Io(text("shutdown failed"));
    let mut session = Session::new_external(Pid::from_raw(100));
    session.start().unwrap();
    let started = session
        .accept_start_reply(SessionChildToParent::FinalChildPid(4242), Err(broken.clone()));
    assert_eq!(started.err(), Some(broken.clone()));
    assert_eq!(session.cancel(), Ok(ParentToSessionChild::Cancel));

    let started =
        session.accept_start_reply(SessionChildToParent::Error(failure()), Err(broken.clone()));
    assert_eq!(started.err(), Some(broken));
}

#[test]
fn the_channel_is_closed_whatever_the_reply_to_start() {
    let mut session = Session::new_external(Pid::from_raw(100));
    session.start().unwrap();
    assert!(session.accept_start_reply(SessionChildToParent::Error(failure()), Ok(())).is_err());
    assert_eq!(session.start(), Err(Error::Closed));
    assert_eq!(session.get_state(), Some(Err(Error::Closed)));
}

#[test]
fn a_reported_process_is_cut_to_the_width_of_an_identifier() {
    let report = |raw: u64| {
        let mut session = Session::new_external(Pid::from_raw(100));
        session.accept_start_reply(SessionChildToParent::FinalChildPid(raw), Ok(())).unwrap()
    };
    assert!(report(0).owns_pid(Pid::from_raw(0)));
    assert!(report(2147483647).owns_pid(Pid::from_raw(i32::MAX)));
    assert!(report(2147483648).owns_pid(Pid::from_raw(i32::MIN)));
    assert!(report(4294967296 + 5).owns_pid(Pid::from_raw(5)));
    assert!(report(u64::MAX).owns_pid(Pid::from_raw(-1)));
    assert_eq!(
        report(4242).kill(),
        vec![
            Delivery { target: Pid::from_raw(4242), signal: Signal::Kill },
            Delivery { target: Pid::from_raw(100), signal: Signal::Kill },
        ]
    );
}

#[test]
fn what_each_reply_means_during_authentication() {
    assert_eq!(
        authentication_state(&prompt()),
        Ok(SessionState::Question(QuestionStyle::Prompt, text("Password:")))
    );
    assert_eq!(
        authentication_state(&SessionChildToParent::PamMessage {
            style: QuestionStyle::Info,
            text: text("")
        }),
        Ok(SessionState::Question(QuestionStyle::Info, text("")))
    );
    assert_eq!(authentication_state(&SessionChildToParent::Success), Ok(SessionState::Ready));
    assert_eq!(authentication_state(&SessionChildToParent::Error(failure())), Err(failure()));
}

#[test]
fn messages_are_copied_as_they_are() {
    let request = ParentToSessionChild::Args {
        cmd: vec![text("a"), text("b")],
        env: vec![text("K=v")],
        vt: 3,
    };
    assert_eq!(request.clone(), request);
    let reply = SessionChildToParent::Error(failure());
    assert_eq!(reply.clone(), reply);
    assert_eq!(reply.kind(), ReplyKind::Error);
    assert_eq!(prompt().kind(), ReplyKind::PamMessage);
    assert_eq!(SessionChildToParent::Success.kind(), ReplyKind::Success);
    assert_eq!(SessionChildToParent::FinalChildPid(1).kind(), ReplyKind::FinalChildPid);
}
