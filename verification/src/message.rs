//! The messages that the controller and the worker exchange.
//!
//! One message travels per datagram. The controller sends a
//! [`ParentToSessionChild`] for each step of the handshake and the worker
//! answers each with one [`SessionChildToParent`].

use vstd::prelude::*;
use crate::error::{Error, ErrorView, ReplyKind};

verus! {

/// How a prompt of the authentication conversation is to be presented.
#[derive(Clone, Copy, Debug, PartialEq, Eq, Structural)]
pub enum QuestionStyle {
    /// A question whose answer may be shown while it is typed.
    Prompt,
    /// A question whose answer must stay hidden.
    Secret,
    /// A notice that expects no answer of substance.
    Info,
    /// A notice of a failure.
    Error,
}

/// A request from the controller to the worker.
#[derive(Debug, PartialEq, Eq)]
pub enum ParentToSessionChild {
    /// Begin a login for `user` through the PAM service `service`.
    InitiateLogin { service: String, class: String, user: String, authenticate: bool },
    /// The answer to the prompt that the worker sent last.
    PamResponse { resp: String },
    /// Give up the authentication in progress.
    Cancel,
    /// The command, environment and virtual terminal of the session to start.
    Args { cmd: Vec<String>, env: Vec<String>, vt: usize },
    /// Start the session.
    Start,
}

/// The value of a [`ParentToSessionChild`].
pub ghost enum RequestView {
    InitiateLogin { service: Seq<char>, class: Seq<char>, user: Seq<char>, authenticate: bool },
    PamResponse { resp: Seq<char> },
    Cancel,
    Args { cmd: Seq<Seq<char>>, env: Seq<Seq<char>>, vt: usize },
    Start,
}

impl View for ParentToSessionChild {
    type V = RequestView;

    open spec fn view(&self) -> RequestView {
        match self {
            ParentToSessionChild::InitiateLogin { service, class, user, authenticate } => {
                RequestView::InitiateLogin {
                    service: service@,
                    class: class@,
                    user: user@,
                    authenticate: *authenticate,
                }
            },
            ParentToSessionChild::PamResponse { resp } => RequestView::PamResponse { resp: resp@ },
            ParentToSessionChild::Cancel => RequestView::Cancel,
            ParentToSessionChild::Args { cmd, env, vt } => RequestView::Args {
                cmd: cmd.deep_view(),
                env: env.deep_view(),
                vt: *vt,
            },
            ParentToSessionChild::Start => RequestView::Start,
        }
    }
}

/// A copy of a list of texts.
fn clone_texts(texts: &Vec<String>) -> (copy: Vec<String>)
    ensures
        copy.deep_view() == texts.deep_view(),
{
    let mut copy: Vec<String> = Vec::new();
    let mut i: usize = 0;
    while i < texts.len()
        invariant
            i <= texts.len(),
            copy.len() == i,
            forall|k: int| 0 <= k < i ==> copy[k]@ == texts[k]@,
        decreases texts.len() - i,
    {
        copy.push(texts[i].clone());
        i = i + 1;
    }
    assert(copy.deep_view() =~= texts.deep_view());
    copy
}

impl Clone for ParentToSessionChild {
    fn clone(&self) -> (copy: ParentToSessionChild)
        ensures
            copy@ == self@,
    {
        match self {
            ParentToSessionChild::InitiateLogin { service, class, user, authenticate } => {
                ParentToSessionChild::InitiateLogin {
                    service: service.clone(),
                    class: class.clone(),
                    user: user.clone(),
                    authenticate: *authenticate,
                }
            },
            ParentToSessionChild::PamResponse { resp } => ParentToSessionChild::PamResponse {
                resp: resp.clone(),
            },
            ParentToSessionChild::Cancel => ParentToSessionChild::Cancel,
            ParentToSessionChild::Args { cmd, env, vt } => ParentToSessionChild::Args {
                cmd: clone_texts(cmd),
                env: clone_texts(env),
                vt: *vt,
            },
            ParentToSessionChild::Start => ParentToSessionChild::Start,
        }
    }
}

/// A reply from the worker to the controller.
#[derive(Debug, PartialEq, Eq)]
pub enum SessionChildToParent {
    /// A prompt of the authentication conversation.
    PamMessage { style: QuestionStyle, text: String },
    /// The step that was asked for is done.
    Success,
    /// The step that was asked for failed, and the handshake with it.
    Error(Error),
    /// The process that the started session runs as.
    FinalChildPid(u64),
}

/// The value of a [`SessionChildToParent`].
pub ghost enum ReplyView {
    PamMessage { style: QuestionStyle, text: Seq<char> },
    Success,
    Error(ErrorView),
    FinalChildPid(u64),
}

impl ReplyView {
    /// The variant of the reply.
    pub open spec fn kind(self) -> ReplyKind {
        match self {
            ReplyView::PamMessage { .. } => ReplyKind::PamMessage,
            ReplyView::Success => ReplyKind::Success,
            ReplyView::Error(_) => ReplyKind::Error,
            ReplyView::FinalChildPid(_) => ReplyKind::FinalChildPid,
        }
    }
}

impl View for SessionChildToParent {
    type V = ReplyView;

    open spec fn view(&self) -> ReplyView {
        match self {
            SessionChildToParent::PamMessage { style, text } => ReplyView::PamMessage {
                style: *style,
                text: text@,
            },
            SessionChildToParent::Success => ReplyView::Success,
            SessionChildToParent::Error(error) => ReplyView::Error(error@),
            SessionChildToParent::FinalChildPid(pid) => ReplyView::FinalChildPid(*pid),
        }
    }
}

impl Clone for SessionChildToParent {
    fn clone(&self) -> (copy: SessionChildToParent)
        ensures
            copy@ == self@,
    {
        match self {
            SessionChildToParent::PamMessage { style, text } => SessionChildToParent::PamMessage {
                style: *style,
                text: text.clone(),
            },
            SessionChildToParent::Success => SessionChildToParent::Success,
            SessionChildToParent::Error(error) => SessionChildToParent::Error(error.clone()),
            SessionChildToParent::FinalChildPid(pid) => SessionChildToParent::FinalChildPid(*pid),
        }
    }
}

impl SessionChildToParent {
    /// The variant of the reply.
    pub fn kind(&self) -> (kind: ReplyKind)
        ensures
            kind == self@.kind(),
    {
        match self {
            SessionChildToParent::PamMessage { .. } => ReplyKind::PamMessage,
            SessionChildToParent::Success => ReplyKind::Success,
            SessionChildToParent::Error(_) => ReplyKind::Error,
            SessionChildToParent::FinalChildPid(_) => ReplyKind::FinalChildPid,
        }
    }
}

} // verus!
