//! The wire format of the messages.
//!
//! A message is one datagram of at most [`MAX_DATAGRAM`] bytes. It holds one
//! variant. A variant that carries nothing is its name as a text. A variant
//! that carries something is an object with one member, named as the
//! variant, whose value is what it carries: a text, a number, or an object
//! with the variant's fields in the order of their declaration. For each
//! type there is a function that says how a value is written and one that
//! says which value stands at a position, and it is proved that what was
//! written is read back.

use vstd::prelude::*;
use crate::cursor::{
    at_bool, at_bytes, at_head, at_number, at_text, at_texts, at_unit, behind, lemma_at_bool,
    lemma_at_bytes, lemma_at_number, lemma_at_open, lemma_at_text, lemma_at_texts, lemma_at_unit,
    lemma_bool_written, lemma_bytes_written, lemma_head_written, lemma_joined, lemma_name,
    lemma_number_written, lemma_regroup, lemma_text_written, lemma_texts_written, next_bool,
    next_byte, next_head, next_literal, next_number, next_text, next_texts, value,
};
use crate::error::{Error, ErrorView, ReplyKind, Step};
use crate::json::{
    all_in, holds_literal, lit, put_bool, put_literal, put_number, put_open, put_text, put_texts,
    put_unit, ser_bool, ser_number, ser_open, ser_text, ser_texts, ser_unit, Class, Head, Variant,
    OBJECT_CLOSE,
};
use crate::message::{
    ParentToSessionChild, QuestionStyle, ReplyView, RequestView, SessionChildToParent,
};
use crate::session::answer_request;

verus! {

/// The name of a style on the wire.
pub open spec fn style_name(style: QuestionStyle) -> Seq<u8> {
    match style {
        QuestionStyle::Prompt => lit("Prompt"),
        QuestionStyle::Secret => lit("Secret"),
        QuestionStyle::Info => lit("Info"),
        QuestionStyle::Error => lit("Error"),
    }
}

/// The style that a name stands for.
pub open spec fn style_named(name: Seq<u8>) -> Option<QuestionStyle> {
    if name == lit("Prompt") {
        Some(QuestionStyle::Prompt)
    } else if name == lit("Secret") {
        Some(QuestionStyle::Secret)
    } else if name == lit("Info") {
        Some(QuestionStyle::Info)
    } else if name == lit("Error") {
        Some(QuestionStyle::Error)
    } else {
        None
    }
}

/// How a style is written.
pub open spec fn ser_style(style: QuestionStyle) -> Seq<u8> {
    ser_unit(style_name(style))
}

/// The style that `input` holds at `pos`, and where it ends.
pub open spec fn at_style(input: Seq<u8>, pos: Option<int>) -> Option<(QuestionStyle, int)> {
    match at_unit(input, pos) {
        Some((name, end)) => match style_named(name) {
            Some(style) => Some((style, end)),
            None => None,
        },
        None => None,
    }
}

/// The names of the styles are made of letters, and each stands for its
/// style alone.
pub proof fn lemma_style_names(style: QuestionStyle)
    ensures
        all_in(Class::Letter, style_name(style)),
        style_named(style_name(style)) == Some(style),
{
    reveal_strlit("Prompt");
    reveal_strlit("Secret");
    reveal_strlit("Info");
    reveal_strlit("Error");
    lemma_name("Prompt");
    lemma_name("Secret");
    lemma_name("Info");
    lemma_name("Error");
    assert(lit("Prompt")[0] != lit("Secret")[0]);
}

/// A style that was written is read back where it stands.
pub proof fn lemma_at_style(input: Seq<u8>, pos: int, style: QuestionStyle, rest: Seq<u8>)
    requires
        0 <= pos <= input.len(),
        input.skip(pos) == ser_style(style) + rest,
    ensures
        at_style(input, Some(pos)) == Some((style, pos + ser_style(style).len())),
        pos + ser_style(style).len() <= input.len(),
        input.skip(pos + ser_style(style).len()) == rest,
{
    lemma_style_names(style);
    lemma_at_unit(input, pos, style_name(style), rest);
}

/// What is read as a style was written so.
pub proof fn lemma_style_written(input: Seq<u8>, pos: Option<int>)
    requires
        at_style(input, pos) is Some,
    ensures
        pos is Some,
        0 <= pos->0 <= behind(at_style(input, pos))->0 <= input.len(),
        input.subrange(pos->0, behind(at_style(input, pos))->0) == ser_style(
            value(at_style(input, pos)),
        ),
{
    lemma_head_written(input, pos);
}

/// Appends `style` to `out` as it is written on the wire.
pub fn put_style(out: &mut Vec<u8>, style: QuestionStyle)
    ensures
        final(out)@ == old(out)@ + ser_style(style),
{
    match style {
        QuestionStyle::Prompt => put_unit(out, "Prompt"),
        QuestionStyle::Secret => put_unit(out, "Secret"),
        QuestionStyle::Info => put_unit(out, "Info"),
        QuestionStyle::Error => put_unit(out, "Error"),
    }
}

/// Reads the style that `buf` holds at `pos`: the style and the position
/// behind it, or `None` where no style stands there.
pub fn take_style(buf: &[u8], pos: usize) -> (taken: Option<(QuestionStyle, usize)>)
    ensures
        match taken {
            Some((style, end)) => end <= buf.len() && at_style(buf@, Some(pos as int)) == Some(
                (style, end as int),
            ),
            None => at_style(buf@, Some(pos as int)) is None,
        },
{
    let head = next_head(buf, pos)?;
    if head.tagged {
        None
    } else if holds_literal(buf, head.start, head.end, "Prompt") {
        Some((QuestionStyle::Prompt, head.next))
    } else if holds_literal(buf, head.start, head.end, "Secret") {
        Some((QuestionStyle::Secret, head.next))
    } else if holds_literal(buf, head.start, head.end, "Info") {
        Some((QuestionStyle::Info, head.next))
    } else if holds_literal(buf, head.start, head.end, "Error") {
        Some((QuestionStyle::Error, head.next))
    } else {
        None
    }
}

/// The name of a step of the handshake on the wire.
pub open spec fn step_name(step: Step) -> Seq<u8> {
    match step {
        Step::Authentication => lit("Authentication"),
        Step::Arguments => lit("Arguments"),
        Step::Start => lit("Start"),
    }
}

/// The step that a name stands for.
pub open spec fn step_named(name: Seq<u8>) -> Option<Step> {
    if name == lit("Authentication") {
        Some(Step::Authentication)
    } else if name == lit("Arguments") {
        Some(Step::Arguments)
    } else if name == lit("Start") {
        Some(Step::Start)
    } else {
        None
    }
}

/// How a step of the handshake is written.
pub open spec fn ser_step(step: Step) -> Seq<u8> {
    ser_unit(step_name(step))
}

/// The step that `input` holds at `pos`, and where it ends.
pub open spec fn at_step(input: Seq<u8>, pos: Option<int>) -> Option<(Step, int)> {
    match at_unit(input, pos) {
        Some((name, end)) => match step_named(name) {
            Some(step) => Some((step, end)),
            None => None,
        },
        None => None,
    }
}

/// The names are made of letters, and each stands for its step alone.
pub proof fn lemma_step_names(step: Step)
    ensures
        all_in(Class::Letter, step_name(step)),
        step_named(step_name(step)) == Some(step),
{
    reveal_strlit("Authentication");
    reveal_strlit("Arguments");
    reveal_strlit("Start");
    lemma_name("Authentication");
    lemma_name("Arguments");
    lemma_name("Start");
}

/// What was written for a step of the handshake is read back where it stands.
pub proof fn lemma_at_step(input: Seq<u8>, pos: int, step: Step, rest: Seq<u8>)
    requires
        0 <= pos <= input.len(),
        input.skip(pos) == ser_step(step) + rest,
    ensures
        at_step(input, Some(pos)) == Some((step, pos + ser_step(step).len())),
        pos + ser_step(step).len() <= input.len(),
        input.skip(pos + ser_step(step).len()) == rest,
{
    lemma_step_names(step);
    lemma_at_unit(input, pos, step_name(step), rest);
}

/// What is read as a step was written so.
pub proof fn lemma_step_written(input: Seq<u8>, pos: Option<int>)
    requires
        at_step(input, pos) is Some,
    ensures
        pos is Some,
        0 <= pos->0 <= behind(at_step(input, pos))->0 <= input.len(),
        input.subrange(pos->0, behind(at_step(input, pos))->0) == ser_step(
            value(at_step(input, pos)),
        ),
{
    lemma_head_written(input, pos);
}

/// Appends `step` to `out` as it is written on the wire.
pub fn put_step(out: &mut Vec<u8>, step: Step)
    ensures
        final(out)@ == old(out)@ + ser_step(step),
{
    match step {
        Step::Authentication => put_unit(out, "Authentication"),
        Step::Arguments => put_unit(out, "Arguments"),
        Step::Start => put_unit(out, "Start"),
    }
}

/// Reads the step that `buf` holds at `pos`: the step and the position
/// behind it, or `None` where none stands there.
pub fn take_step(buf: &[u8], pos: usize) -> (taken: Option<(Step, usize)>)
    ensures
        match taken {
            Some((step, end)) => end <= buf.len() && at_step(buf@, Some(pos as int)) == Some(
                (step, end as int),
            ),
            None => at_step(buf@, Some(pos as int)) is None,
        },
{
    let head = next_head(buf, pos)?;
    if head.tagged {
        None
    } else if holds_literal(buf, head.start, head.end, "Authentication") {
        Some((Step::Authentication, head.next))
    } else if holds_literal(buf, head.start, head.end, "Arguments") {
        Some((Step::Arguments, head.next))
    } else if holds_literal(buf, head.start, head.end, "Start") {
        Some((Step::Start, head.next))
    } else {
        None
    }
}

/// The name of the variant of a reply on the wire.
pub open spec fn kind_name(kind: ReplyKind) -> Seq<u8> {
    match kind {
        ReplyKind::PamMessage => lit("PamMessage"),
        ReplyKind::Success => lit("Success"),
        ReplyKind::Error => lit("Error"),
        ReplyKind::FinalChildPid => lit("FinalChildPid"),
    }
}

/// The kind that a name stands for.
pub open spec fn kind_named(name: Seq<u8>) -> Option<ReplyKind> {
    if name == lit("PamMessage") {
        Some(ReplyKind::PamMessage)
    } else if name == lit("Success") {
        Some(ReplyKind::Success)
    } else if name == lit("Error") {
        Some(ReplyKind::Error)
    } else if name == lit("FinalChildPid") {
        Some(ReplyKind::FinalChildPid)
    } else {
        None
    }
}

/// How the variant of a reply is written.
pub open spec fn ser_kind(kind: ReplyKind) -> Seq<u8> {
    ser_unit(kind_name(kind))
}

/// The kind that `input` holds at `pos`, and where it ends.
pub open spec fn at_kind(input: Seq<u8>, pos: Option<int>) -> Option<(ReplyKind, int)> {
    match at_unit(input, pos) {
        Some((name, end)) => match kind_named(name) {
            Some(kind) => Some((kind, end)),
            None => None,
        },
        None => None,
    }
}

/// The names are made of letters, and each stands for its kind alone.
pub proof fn lemma_kind_names(kind: ReplyKind)
    ensures
        all_in(Class::Letter, kind_name(kind)),
        kind_named(kind_name(kind)) == Some(kind),
{
    reveal_strlit("PamMessage");
    reveal_strlit("Success");
    reveal_strlit("Error");
    reveal_strlit("FinalChildPid");
    lemma_name("PamMessage");
    lemma_name("Success");
    lemma_name("Error");
    lemma_name("FinalChildPid");
}

/// What was written for the variant of a reply is read back where it stands.
pub proof fn lemma_at_kind(input: Seq<u8>, pos: int, kind: ReplyKind, rest: Seq<u8>)
    requires
        0 <= pos <= input.len(),
        input.skip(pos) == ser_kind(kind) + rest,
    ensures
        at_kind(input, Some(pos)) == Some((kind, pos + ser_kind(kind).len())),
        pos + ser_kind(kind).len() <= input.len(),
        input.skip(pos + ser_kind(kind).len()) == rest,
{
    lemma_kind_names(kind);
    lemma_at_unit(input, pos, kind_name(kind), rest);
}

/// What is read as the variant of a reply was written so.
pub proof fn lemma_kind_written(input: Seq<u8>, pos: Option<int>)
    requires
        at_kind(input, pos) is Some,
    ensures
        pos is Some,
        0 <= pos->0 <= behind(at_kind(input, pos))->0 <= input.len(),
        input.subrange(pos->0, behind(at_kind(input, pos))->0) == ser_kind(
            value(at_kind(input, pos)),
        ),
{
    lemma_head_written(input, pos);
}

/// Appends `kind` to `out` as it is written on the wire.
pub fn put_kind(out: &mut Vec<u8>, kind: ReplyKind)
    ensures
        final(out)@ == old(out)@ + ser_kind(kind),
{
    match kind {
        ReplyKind::PamMessage => put_unit(out, "PamMessage"),
        ReplyKind::Success => put_unit(out, "Success"),
        ReplyKind::Error => put_unit(out, "Error"),
        ReplyKind::FinalChildPid => put_unit(out, "FinalChildPid"),
    }
}

/// Reads the kind that `buf` holds at `pos`: the kind and the position
/// behind it, or `None` where none stands there.
pub fn take_kind(buf: &[u8], pos: usize) -> (taken: Option<(ReplyKind, usize)>)
    ensures
        match taken {
            Some((kind, end)) => end <= buf.len() && at_kind(buf@, Some(pos as int)) == Some(
                (kind, end as int),
            ),
            None => at_kind(buf@, Some(pos as int)) is None,
        },
{
    let head = next_head(buf, pos)?;
    if head.tagged {
        None
    } else if holds_literal(buf, head.start, head.end, "PamMessage") {
        Some((ReplyKind::PamMessage, head.next))
    } else if holds_literal(buf, head.start, head.end, "Success") {
        Some((ReplyKind::Success, head.next))
    } else if holds_literal(buf, head.start, head.end, "Error") {
        Some((ReplyKind::Error, head.next))
    } else if holds_literal(buf, head.start, head.end, "FinalChildPid") {
        Some((ReplyKind::FinalChildPid, head.next))
    } else {
        None
    }
}

/// The name of the variant of an error on the wire.
pub open spec fn error_name(error: ErrorView) -> Seq<u8> {
    match error {
        ErrorView::Channel(_) => lit("Channel"),
        ErrorView::Descriptor(_) => lit("Descriptor"),
        ErrorView::Spawn(_) => lit("Spawn"),
        ErrorView::Io(_) => lit("Io"),
        ErrorView::Codec(_) => lit("Codec"),
        ErrorView::Protocol(_) => lit("Protocol"),
        ErrorView::Closed => lit("Closed"),
        ErrorView::ProtocolViolation { .. } => lit("ProtocolViolation"),
    }
}

/// The text that an error carries, where it carries one.
pub open spec fn carried_text(error: ErrorView) -> Seq<char> {
    match error {
        ErrorView::Channel(text) => text,
        ErrorView::Descriptor(text) => text,
        ErrorView::Spawn(text) => text,
        ErrorView::Io(text) => text,
        ErrorView::Codec(text) => text,
        ErrorView::Protocol(text) => text,
        _ => seq![],
    }
}

/// The error that carries `text` and whose variant is named `name`.
pub open spec fn text_error(name: Seq<u8>, text: Seq<char>) -> Option<ErrorView> {
    if name == lit("Channel") {
        Some(ErrorView::Channel(text))
    } else if name == lit("Descriptor") {
        Some(ErrorView::Descriptor(text))
    } else if name == lit("Spawn") {
        Some(ErrorView::Spawn(text))
    } else if name == lit("Io") {
        Some(ErrorView::Io(text))
    } else if name == lit("Codec") {
        Some(ErrorView::Codec(text))
    } else if name == lit("Protocol") {
        Some(ErrorView::Protocol(text))
    } else {
        None
    }
}

/// How a protocol violation is written behind its name: an object with the
/// step that was awaited and the variant that was received.
pub open spec fn ser_violation(awaited: Step, received: ReplyKind) -> Seq<u8> {
    lit("{\"awaited\":") + (ser_step(awaited) + (lit(",\"received\":") + (ser_kind(received)
        + seq![OBJECT_CLOSE])))
}

/// How an error is written.
pub open spec fn ser_error(error: ErrorView) -> Seq<u8> {
    match error {
        ErrorView::Closed => ser_unit(error_name(error)),
        ErrorView::ProtocolViolation { awaited, received } => ser_open(error_name(error)) + (
        ser_violation(awaited, received) + seq![OBJECT_CLOSE]),
        _ => ser_open(error_name(error)) + (ser_text(carried_text(error)) + seq![OBJECT_CLOSE]),
    }
}

/// The protocol violation that `input` holds at `pos`, behind its name, and
/// where it ends.
pub open spec fn at_violation(input: Seq<u8>, pos: Option<int>) -> Option<(ErrorView, int)> {
    let awaited = at_step(input, at_bytes(input, pos, lit("{\"awaited\":")));
    let received = at_kind(input, at_bytes(input, behind(awaited), lit(",\"received\":")));
    let end = at_bytes(input, behind(received), seq![OBJECT_CLOSE]);
    if end is Some {
        Some(
            (
                ErrorView::ProtocolViolation { awaited: value(awaited), received: value(received) },
                end->0,
            ),
        )
    } else {
        None
    }
}

/// The error that carries a text, is named `name` and stands in `input` at
/// `pos` behind its name, and where the text ends.
pub open spec fn at_text_error(input: Seq<u8>, pos: Option<int>, name: Seq<u8>) -> Option<
    (ErrorView, int),
> {
    match at_text(input, pos) {
        Some((text, end)) => match text_error(name, text) {
            Some(error) => Some((error, end)),
            None => None,
        },
        None => None,
    }
}

/// The error that `input` holds at `pos`, and where it ends.
pub open spec fn at_error(input: Seq<u8>, pos: Option<int>) -> Option<(ErrorView, int)> {
    match at_head(input, pos) {
        Some((head, next)) => {
            if !head.tagged {
                if head.tag == lit("Closed") {
                    Some((ErrorView::Closed, next))
                } else {
                    None
                }
            } else {
                let carried = if head.tag == lit("ProtocolViolation") {
                    at_violation(input, Some(next))
                } else {
                    at_text_error(input, Some(next), head.tag)
                };
                let end = at_bytes(input, behind(carried), seq![OBJECT_CLOSE]);
                if end is Some {
                    Some((value(carried), end->0))
                } else {
                    None
                }
            }
        },
        None => None,
    }
}

/// The names of the variants of an error are made of letters, and no two
/// are the same.
pub proof fn lemma_error_names(error: ErrorView)
    ensures
        all_in(Class::Letter, error_name(error)),
        error_name(error) == lit("ProtocolViolation") <==> error is ProtocolViolation,
        error_name(error) == lit("Closed") <==> error is Closed,
        forall|text: Seq<char>|
            text_error(error_name(error), text) == match error {
                ErrorView::Channel(_) => Some(ErrorView::Channel(text)),
                ErrorView::Descriptor(_) => Some(ErrorView::Descriptor(text)),
                ErrorView::Spawn(_) => Some(ErrorView::Spawn(text)),
                ErrorView::Io(_) => Some(ErrorView::Io(text)),
                ErrorView::Codec(_) => Some(ErrorView::Codec(text)),
                ErrorView::Protocol(_) => Some(ErrorView::Protocol(text)),
                _ => None,
            },
{
    reveal_strlit("Channel");
    lemma_name("Channel");
    reveal_strlit("Descriptor");
    lemma_name("Descriptor");
    reveal_strlit("Spawn");
    lemma_name("Spawn");
    reveal_strlit("Io");
    lemma_name("Io");
    reveal_strlit("Codec");
    lemma_name("Codec");
    reveal_strlit("Protocol");
    lemma_name("Protocol");
    reveal_strlit("Closed");
    lemma_name("Closed");
    reveal_strlit("ProtocolViolation");
    lemma_name("ProtocolViolation");
    assert(lit("Spawn")[0] != lit("Codec")[0]);
}

/// A protocol violation that was written is read back where it stands.
pub proof fn lemma_at_violation(
    input: Seq<u8>,
    pos: int,
    awaited: Step,
    received: ReplyKind,
    rest: Seq<u8>,
)
    requires
        0 <= pos <= input.len(),
        input.skip(pos) == ser_violation(awaited, received) + rest,
    ensures
        at_violation(input, Some(pos)) == Some(
            (
                ErrorView::ProtocolViolation { awaited, received },
                pos + ser_violation(awaited, received).len(),
            ),
        ),
        pos + ser_violation(awaited, received).len() <= input.len(),
        input.skip(pos + ser_violation(awaited, received).len()) == rest,
{
    let close = seq![OBJECT_CLOSE];
    let s3 = ser_kind(received) + close;
    let s2 = lit(",\"received\":") + s3;
    let s1 = ser_step(awaited) + s2;
    let r4 = close + rest;
    let r3 = ser_kind(received) + r4;
    let r2 = lit(",\"received\":") + r3;
    let r1 = ser_step(awaited) + r2;
    lemma_regroup(lit("{\"awaited\":"), s1, rest);
    lemma_regroup(ser_step(awaited), s2, rest);
    lemma_regroup(lit(",\"received\":"), s3, rest);
    lemma_regroup(ser_kind(received), close, rest);
    lemma_at_bytes(input, pos, lit("{\"awaited\":"), r1);
    let at1 = pos + lit("{\"awaited\":").len();
    lemma_at_step(input, at1, awaited, r2);
    let at2 = at1 + ser_step(awaited).len();
    lemma_at_bytes(input, at2, lit(",\"received\":"), r3);
    let at3 = at2 + lit(",\"received\":").len();
    lemma_at_kind(input, at3, received, r4);
    let at4 = at3 + ser_kind(received).len();
    lemma_at_bytes(input, at4, seq![OBJECT_CLOSE], rest);
}

/// A variant that carries a text and was written is read back where it
/// stands: its name, the text, and the byte that closes it.
pub proof fn lemma_at_carried_text(
    input: Seq<u8>,
    pos: int,
    name: Seq<u8>,
    text: Seq<char>,
    rest: Seq<u8>,
)
    requires
        0 <= pos <= input.len(),
        input.skip(pos) == ser_open(name) + (ser_text(text) + seq![OBJECT_CLOSE]) + rest,
        all_in(Class::Letter, name),
    ensures
        at_head(input, Some(pos)) == Some(
            (
                Head { tagged: true, tag: name, taken: ser_open(name).len() },
                pos + ser_open(name).len(),
            ),
        ),
        at_text(input, Some(pos + ser_open(name).len())) == Some(
            (text, pos + ser_open(name).len() + ser_text(text).len()),
        ),
        at_bytes(
            input,
            Some(pos + ser_open(name).len() + ser_text(text).len()),
            seq![OBJECT_CLOSE],
        ) == Some(pos + ser_open(name).len() + ser_text(text).len() + 1),
        pos + ser_open(name).len() + ser_text(text).len() + 1 <= input.len(),
        input.skip(pos + ser_open(name).len() + ser_text(text).len() + 1) == rest,
{
    let after = seq![OBJECT_CLOSE] + rest;
    lemma_regroup(ser_open(name), ser_text(text) + seq![OBJECT_CLOSE], rest);
    lemma_regroup(ser_text(text), seq![OBJECT_CLOSE], rest);
    lemma_at_open(input, pos, name, ser_text(text) + after);
    let inner = pos + ser_open(name).len();
    lemma_at_text(input, inner, text, after);
    lemma_at_bytes(input, inner + ser_text(text).len(), seq![OBJECT_CLOSE], rest);
}

/// An error that was written is read back where it stands.
pub proof fn lemma_at_error(input: Seq<u8>, pos: int, error: ErrorView, rest: Seq<u8>)
    requires
        0 <= pos <= input.len(),
        input.skip(pos) == ser_error(error) + rest,
    ensures
        at_error(input, Some(pos)) == Some((error, pos + ser_error(error).len())),
        pos + ser_error(error).len() <= input.len(),
        input.skip(pos + ser_error(error).len()) == rest,
{
    lemma_error_names(error);
    let name = error_name(error);
    match error {
        ErrorView::Closed => {
            lemma_at_unit(input, pos, name, rest);
        },
        ErrorView::ProtocolViolation { awaited, received } => {
            let after = seq![OBJECT_CLOSE] + rest;
            let carried = ser_violation(awaited, received);
            lemma_regroup(ser_open(name), carried + seq![OBJECT_CLOSE], rest);
            lemma_regroup(carried, seq![OBJECT_CLOSE], rest);
            lemma_at_open(input, pos, name, carried + after);
            let inner = pos + ser_open(name).len();
            lemma_at_violation(input, inner, awaited, received, after);
            lemma_at_bytes(input, inner + carried.len(), seq![OBJECT_CLOSE], rest);
        },
        _ => {
            let text = carried_text(error);
            assert(text_error(name, text) == Some(error));
            assert(ser_error(error) == ser_open(name) + (ser_text(text) + seq![OBJECT_CLOSE]));
            lemma_at_carried_text(input, pos, name, text, rest);
        },
    }
}

/// A protocol violation that is read was written so.
pub proof fn lemma_violation_written(input: Seq<u8>, pos: Option<int>)
    requires
        at_violation(input, pos) is Some,
    ensures
        pos is Some,
        0 <= pos->0 <= behind(at_violation(input, pos))->0 <= input.len(),
        value(at_violation(input, pos)) is ProtocolViolation,
        input.subrange(pos->0, behind(at_violation(input, pos))->0) == ser_violation(
            value(at_violation(input, pos))->awaited,
            value(at_violation(input, pos))->received,
        ),
{
    let at1 = at_bytes(input, pos, lit("{\"awaited\":"));
    let awaited = at_step(input, at1);
    let at2 = behind(awaited);
    let at3 = at_bytes(input, at2, lit(",\"received\":"));
    let received = at_kind(input, at3);
    let at4 = behind(received);
    let end = at_bytes(input, at4, seq![OBJECT_CLOSE]);
    lemma_bytes_written(input, pos, lit("{\"awaited\":"));
    lemma_step_written(input, at1);
    lemma_bytes_written(input, at2, lit(",\"received\":"));
    lemma_kind_written(input, at3);
    lemma_bytes_written(input, at4, seq![OBJECT_CLOSE]);
    lemma_joined(input, at3->0, at4->0, end->0);
    lemma_joined(input, at2->0, at3->0, end->0);
    lemma_joined(input, at1->0, at2->0, end->0);
    lemma_joined(input, pos->0, at1->0, end->0);
}

/// An error that is read was written so.
pub proof fn lemma_error_written(input: Seq<u8>, pos: Option<int>)
    requires
        at_error(input, pos) is Some,
    ensures
        pos is Some,
        0 <= pos->0 <= behind(at_error(input, pos))->0 <= input.len(),
        input.subrange(pos->0, behind(at_error(input, pos))->0) == ser_error(
            value(at_error(input, pos)),
        ),
{
    lemma_head_written(input, pos);
    let head = value(at_head(input, pos));
    let next = behind(at_head(input, pos));
    let error = value(at_error(input, pos));
    if head.tagged {
        let carried = if head.tag == lit("ProtocolViolation") {
            at_violation(input, next)
        } else {
            at_text_error(input, next, head.tag)
        };
        let inner = behind(carried);
        let end = at_bytes(input, inner, seq![OBJECT_CLOSE]);
        lemma_bytes_written(input, inner, seq![OBJECT_CLOSE]);
        if head.tag == lit("ProtocolViolation") {
            lemma_violation_written(input, next);
        } else {
            lemma_text_written(input, next);
            lemma_error_names(error);
        }
        lemma_joined(input, next->0, inner->0, end->0);
        lemma_joined(input, pos->0, next->0, end->0);
    }
}

/// Appends to `out` the variant named `name` that carries `text`.
pub fn put_carried_text(out: &mut Vec<u8>, name: &str, text: &str)
    ensures
        final(out)@ == old(out)@ + (ser_open(lit(name)) + (ser_text(text@) + seq![OBJECT_CLOSE])),
{
    put_open(out, name);
    put_text(out, text);
    out.push(OBJECT_CLOSE);
    assert(out@ =~= old(out)@ + (ser_open(lit(name)) + (ser_text(text@) + seq![OBJECT_CLOSE])));
}

fn put_violation(out: &mut Vec<u8>, awaited: Step, received: ReplyKind)
    ensures
        final(out)@ == old(out)@ + ser_violation(awaited, received),
{
    put_literal(out, "{\"awaited\":");
    put_step(out, awaited);
    put_literal(out, ",\"received\":");
    put_kind(out, received);
    out.push(OBJECT_CLOSE);
    assert(out@ =~= old(out)@ + ser_violation(awaited, received));
}

/// Appends `error` to `out` as it is written on the wire.
pub fn put_error(out: &mut Vec<u8>, error: &Error)
    ensures
        final(out)@ == old(out)@ + ser_error(error@),
{
    match error {
        Error::Channel(text) => put_carried_text(out, "Channel", text.as_str()),
        Error::Descriptor(text) => put_carried_text(out, "Descriptor", text.as_str()),
        Error::Spawn(text) => put_carried_text(out, "Spawn", text.as_str()),
        Error::Io(text) => put_carried_text(out, "Io", text.as_str()),
        Error::Codec(text) => put_carried_text(out, "Codec", text.as_str()),
        Error::Protocol(text) => put_carried_text(out, "Protocol", text.as_str()),
        Error::Closed => put_unit(out, "Closed"),
        Error::ProtocolViolation { awaited, received } => {
            put_open(out, "ProtocolViolation");
            put_violation(out, *awaited, *received);
            out.push(OBJECT_CLOSE);
            assert(out@ =~= old(out)@ + ser_error(error@));
        },
    }
}

fn take_violation(buf: &[u8], pos: usize) -> (taken: Option<(Error, usize)>)
    ensures
        match taken {
            Some((error, end)) => end <= buf.len() && at_violation(buf@, Some(pos as int)) == Some(
                (error@, end as int),
            ),
            None => at_violation(buf@, Some(pos as int)) is None,
        },
{
    let next = next_literal(buf, pos, "{\"awaited\":")?;
    let (awaited, next) = take_step(buf, next)?;
    let next = next_literal(buf, next, ",\"received\":")?;
    let (received, next) = take_kind(buf, next)?;
    let end = next_byte(buf, next, OBJECT_CLOSE)?;
    Some((Error::ProtocolViolation { awaited, received }, end))
}

fn take_text_error(buf: &[u8], pos: usize, head: Variant) -> (taken: Option<(Error, usize)>)
    requires
        head.start <= head.end <= buf.len(),
    ensures
        match taken {
            Some((error, end)) => end <= buf.len() && at_text_error(
                buf@,
                Some(pos as int),
                buf@.subrange(head.start as int, head.end as int),
            ) == Some((error@, end as int)),
            None => at_text_error(
                buf@,
                Some(pos as int),
                buf@.subrange(head.start as int, head.end as int),
            ) is None,
        },
{
    let (text, end) = next_text(buf, pos)?;
        if holds_literal(buf, head.start, head.end, "Channel") {
            Some((Error::Channel(text), end))
        } else if holds_literal(buf, head.start, head.end, "Descriptor") {
            Some((Error::Descriptor(text), end))
        } else if holds_literal(buf, head.start, head.end, "Spawn") {
            Some((Error::Spawn(text), end))
        } else if holds_literal(buf, head.start, head.end, "Io") {
            Some((Error::Io(text), end))
        } else if holds_literal(buf, head.start, head.end, "Codec") {
            Some((Error::Codec(text), end))
        } else if holds_literal(buf, head.start, head.end, "Protocol") {
            Some((Error::Protocol(text), end))
        } else {
            None
        }
}

/// Reads the error that `buf` holds at `pos`: the error and the position
/// behind it, or `None` where no error stands there.
pub fn take_error(buf: &[u8], pos: usize) -> (taken: Option<(Error, usize)>)
    ensures
        match taken {
            Some((error, end)) => end <= buf.len() && at_error(buf@, Some(pos as int)) == Some(
                (error@, end as int),
            ),
            None => at_error(buf@, Some(pos as int)) is None,
        },
{
    let head = next_head(buf, pos)?;
    if !head.tagged {
        if holds_literal(buf, head.start, head.end, "Closed") {
            Some((Error::Closed, head.next))
        } else {
            None
        }
    } else {
        let (error, next) = if holds_literal(buf, head.start, head.end, "ProtocolViolation") {
            take_violation(buf, head.next)?
        } else {
            take_text_error(buf, head.next, head)?
        };
        let end = next_byte(buf, next, OBJECT_CLOSE)?;
        Some((error, end))
    }
}

/// How a login is written behind its name: an object with the service, the
/// session class, the user, and whether to authenticate.
pub open spec fn ser_login(
    service: Seq<char>,
    class: Seq<char>,
    user: Seq<char>,
    authenticate: bool,
) -> Seq<u8> {
    lit("{\"service\":") + (ser_text(service) + (lit(",\"class\":") + (ser_text(class) + (lit(
        ",\"user\":",
    ) + (ser_text(user) + (lit(",\"authenticate\":") + (ser_bool(authenticate)
        + seq![OBJECT_CLOSE])))))))
}

/// How an answer is written behind its name: an object with the response.
pub open spec fn ser_response(resp: Seq<char>) -> Seq<u8> {
    lit("{\"resp\":") + (ser_text(resp) + seq![OBJECT_CLOSE])
}

/// How the arguments of a session are written behind their name: an object
/// with the command, the environment and the virtual terminal.
pub open spec fn ser_args(cmd: Seq<Seq<char>>, env: Seq<Seq<char>>, vt: usize) -> Seq<u8> {
    lit("{\"cmd\":") + (ser_texts(cmd) + (lit(",\"env\":") + (ser_texts(env) + (lit(",\"vt\":") + (
    ser_number(vt as nat) + seq![OBJECT_CLOSE])))))
}

/// How a request is written.
pub open spec fn ser_request(request: RequestView) -> Seq<u8> {
    match request {
        RequestView::InitiateLogin { service, class, user, authenticate } => ser_open(
            lit("InitiateLogin"),
        ) + (ser_login(service, class, user, authenticate) + seq![OBJECT_CLOSE]),
        RequestView::PamResponse { resp } => ser_open(lit("PamResponse")) + (ser_response(resp)
            + seq![OBJECT_CLOSE]),
        RequestView::Cancel => ser_unit(lit("Cancel")),
        RequestView::Args { cmd, env, vt } => ser_open(lit("Args")) + (ser_args(cmd, env, vt)
            + seq![OBJECT_CLOSE]),
        RequestView::Start => ser_unit(lit("Start")),
    }
}

/// The login that `input` holds at `pos`, behind its name, and where it
/// ends.
pub open spec fn at_login(input: Seq<u8>, pos: Option<int>) -> Option<(RequestView, int)> {
    let service = at_text(input, at_bytes(input, pos, lit("{\"service\":")));
    let class = at_text(input, at_bytes(input, behind(service), lit(",\"class\":")));
    let user = at_text(input, at_bytes(input, behind(class), lit(",\"user\":")));
    let authenticate = at_bool(input, at_bytes(input, behind(user), lit(",\"authenticate\":")));
    let end = at_bytes(input, behind(authenticate), seq![OBJECT_CLOSE]);
    if end is Some {
        Some(
            (
                RequestView::InitiateLogin {
                    service: value(service),
                    class: value(class),
                    user: value(user),
                    authenticate: value(authenticate),
                },
                end->0,
            ),
        )
    } else {
        None
    }
}

/// The answer that `input` holds at `pos`, behind its name, and where it
/// ends.
pub open spec fn at_response(input: Seq<u8>, pos: Option<int>) -> Option<(RequestView, int)> {
    let resp = at_text(input, at_bytes(input, pos, lit("{\"resp\":")));
    let end = at_bytes(input, behind(resp), seq![OBJECT_CLOSE]);
    if end is Some {
        Some((RequestView::PamResponse { resp: value(resp) }, end->0))
    } else {
        None
    }
}

/// The arguments that `input` holds at `pos`, behind their name, and where
/// they end. A virtual terminal beyond what the machine can number is none.
pub open spec fn at_args(input: Seq<u8>, pos: Option<int>) -> Option<(RequestView, int)> {
    let cmd = at_texts(input, at_bytes(input, pos, lit("{\"cmd\":")));
    let env = at_texts(input, at_bytes(input, behind(cmd), lit(",\"env\":")));
    let vt = at_number(input, at_bytes(input, behind(env), lit(",\"vt\":")));
    let end = at_bytes(input, behind(vt), seq![OBJECT_CLOSE]);
    if end is Some && value(vt) <= usize::MAX {
        Some(
            (
                RequestView::Args { cmd: value(cmd), env: value(env), vt: value(vt) as usize },
                end->0,
            ),
        )
    } else {
        None
    }
}

/// The request that `input` holds at `pos`, and where it ends.
pub open spec fn at_request(input: Seq<u8>, pos: Option<int>) -> Option<(RequestView, int)> {
    match at_head(input, pos) {
        Some((head, next)) => {
            if !head.tagged {
                if head.tag == lit("Cancel") {
                    Some((RequestView::Cancel, next))
                } else if head.tag == lit("Start") {
                    Some((RequestView::Start, next))
                } else {
                    None
                }
            } else {
                let carried = if head.tag == lit("InitiateLogin") {
                    at_login(input, Some(next))
                } else if head.tag == lit("PamResponse") {
                    at_response(input, Some(next))
                } else if head.tag == lit("Args") {
                    at_args(input, Some(next))
                } else {
                    None
                };
                let end = at_bytes(input, behind(carried), seq![OBJECT_CLOSE]);
                if end is Some {
                    Some((value(carried), end->0))
                } else {
                    None
                }
            }
        },
        None => None,
    }
}

/// The request that `input` is, from its first byte to its last.
pub open spec fn parse_request(input: Seq<u8>) -> Option<RequestView> {
    match at_request(input, Some(0)) {
        Some((request, end)) => if end == input.len() {
            Some(request)
        } else {
            None
        },
        None => None,
    }
}

/// The name of the variant of a request on the wire.
pub open spec fn request_name(request: RequestView) -> Seq<u8> {
    match request {
        RequestView::InitiateLogin { .. } => lit("InitiateLogin"),
        RequestView::PamResponse { .. } => lit("PamResponse"),
        RequestView::Cancel => lit("Cancel"),
        RequestView::Args { .. } => lit("Args"),
        RequestView::Start => lit("Start"),
    }
}

/// The names of the variants of a request are made of letters, and no two
/// are the same.
pub proof fn lemma_request_names(request: RequestView)
    ensures
        all_in(Class::Letter, request_name(request)),
        request_name(request) == lit("InitiateLogin") <==> request is InitiateLogin,
        request_name(request) == lit("PamResponse") <==> request is PamResponse,
        request_name(request) == lit("Cancel") <==> request is Cancel,
        request_name(request) == lit("Args") <==> request is Args,
        request_name(request) == lit("Start") <==> request is Start,
{
    reveal_strlit("InitiateLogin");
    reveal_strlit("PamResponse");
    reveal_strlit("Cancel");
    reveal_strlit("Args");
    reveal_strlit("Start");
    lemma_name("InitiateLogin");
    lemma_name("PamResponse");
    lemma_name("Cancel");
    lemma_name("Args");
    lemma_name("Start");
}

/// A login that was written is read back where it stands.
pub proof fn lemma_at_login(
    input: Seq<u8>,
    pos: int,
    service: Seq<char>,
    class: Seq<char>,
    user: Seq<char>,
    authenticate: bool,
    rest: Seq<u8>,
)
    requires
        0 <= pos <= input.len(),
        input.skip(pos) == ser_login(service, class, user, authenticate) + rest,
    ensures
        at_login(input, Some(pos)) == Some(
            (
                RequestView::InitiateLogin { service, class, user, authenticate },
                pos + ser_login(service, class, user, authenticate).len(),
            ),
        ),
        pos + ser_login(service, class, user, authenticate).len() <= input.len(),
        input.skip(pos + ser_login(service, class, user, authenticate).len()) == rest,
{
    let close = seq![OBJECT_CLOSE];
    let s7 = ser_bool(authenticate) + close;
    let s6 = lit(",\"authenticate\":") + s7;
    let s5 = ser_text(user) + s6;
    let s4 = lit(",\"user\":") + s5;
    let s3 = ser_text(class) + s4;
    let s2 = lit(",\"class\":") + s3;
    let s1 = ser_text(service) + s2;
    let r8 = close + rest;
    let r7 = ser_bool(authenticate) + r8;
    let r6 = lit(",\"authenticate\":") + r7;
    let r5 = ser_text(user) + r6;
    let r4 = lit(",\"user\":") + r5;
    let r3 = ser_text(class) + r4;
    let r2 = lit(",\"class\":") + r3;
    let r1 = ser_text(service) + r2;
    lemma_regroup(lit("{\"service\":"), s1, rest);
    lemma_regroup(ser_text(service), s2, rest);
    lemma_regroup(lit(",\"class\":"), s3, rest);
    lemma_regroup(ser_text(class), s4, rest);
    lemma_regroup(lit(",\"user\":"), s5, rest);
    lemma_regroup(ser_text(user), s6, rest);
    lemma_regroup(lit(",\"authenticate\":"), s7, rest);
    lemma_regroup(ser_bool(authenticate), close, rest);
    lemma_at_bytes(input, pos, lit("{\"service\":"), r1);
    let at1 = pos + lit("{\"service\":").len();
    lemma_at_text(input, at1, service, r2);
    let at2 = at1 + ser_text(service).len();
    lemma_at_bytes(input, at2, lit(",\"class\":"), r3);
    let at3 = at2 + lit(",\"class\":").len();
    lemma_at_text(input, at3, class, r4);
    let at4 = at3 + ser_text(class).len();
    lemma_at_bytes(input, at4, lit(",\"user\":"), r5);
    let at5 = at4 + lit(",\"user\":").len();
    lemma_at_text(input, at5, user, r6);
    let at6 = at5 + ser_text(user).len();
    lemma_at_bytes(input, at6, lit(",\"authenticate\":"), r7);
    let at7 = at6 + lit(",\"authenticate\":").len();
    lemma_at_bool(input, at7, authenticate, r8);
    let at8 = at7 + ser_bool(authenticate).len();
    lemma_at_bytes(input, at8, seq![OBJECT_CLOSE], rest);
}

/// An answer that was written is read back where it stands.
pub proof fn lemma_at_response(input: Seq<u8>, pos: int, resp: Seq<char>, rest: Seq<u8>)
    requires
        0 <= pos <= input.len(),
        input.skip(pos) == ser_response(resp) + rest,
    ensures
        at_response(input, Some(pos)) == Some(
            (RequestView::PamResponse { resp }, pos + ser_response(resp).len()),
        ),
        pos + ser_response(resp).len() <= input.len(),
        input.skip(pos + ser_response(resp).len()) == rest,
{
    let close = seq![OBJECT_CLOSE];
    let r2 = close + rest;
    let r1 = ser_text(resp) + r2;
    lemma_regroup(lit("{\"resp\":"), ser_text(resp) + close, rest);
    lemma_regroup(ser_text(resp), close, rest);
    lemma_at_bytes(input, pos, lit("{\"resp\":"), r1);
    let at1 = pos + lit("{\"resp\":").len();
    lemma_at_text(input, at1, resp, r2);
    let at2 = at1 + ser_text(resp).len();
    lemma_at_bytes(input, at2, seq![OBJECT_CLOSE], rest);
}

/// Arguments that were written are read back where they stand.
pub proof fn lemma_at_args(
    input: Seq<u8>,
    pos: int,
    cmd: Seq<Seq<char>>,
    env: Seq<Seq<char>>,
    vt: usize,
    rest: Seq<u8>,
)
    requires
        0 <= pos <= input.len(),
        input.skip(pos) == ser_args(cmd, env, vt) + rest,
    ensures
        at_args(input, Some(pos)) == Some(
            (RequestView::Args { cmd, env, vt }, pos + ser_args(cmd, env, vt).len()),
        ),
        pos + ser_args(cmd, env, vt).len() <= input.len(),
        input.skip(pos + ser_args(cmd, env, vt).len()) == rest,
{
    let close = seq![OBJECT_CLOSE];
    let s5 = ser_number(vt as nat) + close;
    let s4 = lit(",\"vt\":") + s5;
    let s3 = ser_texts(env) + s4;
    let s2 = lit(",\"env\":") + s3;
    let s1 = ser_texts(cmd) + s2;
    let r6 = close + rest;
    let r5 = ser_number(vt as nat) + r6;
    let r4 = lit(",\"vt\":") + r5;
    let r3 = ser_texts(env) + r4;
    let r2 = lit(",\"env\":") + r3;
    let r1 = ser_texts(cmd) + r2;
    lemma_regroup(lit("{\"cmd\":"), s1, rest);
    lemma_regroup(ser_texts(cmd), s2, rest);
    lemma_regroup(lit(",\"env\":"), s3, rest);
    lemma_regroup(ser_texts(env), s4, rest);
    lemma_regroup(lit(",\"vt\":"), s5, rest);
    lemma_regroup(ser_number(vt as nat), close, rest);
    lemma_at_bytes(input, pos, lit("{\"cmd\":"), r1);
    let at1 = pos + lit("{\"cmd\":").len();
    lemma_at_texts(input, at1, cmd, r2);
    let at2 = at1 + ser_texts(cmd).len();
    lemma_at_bytes(input, at2, lit(",\"env\":"), r3);
    let at3 = at2 + lit(",\"env\":").len();
    lemma_at_texts(input, at3, env, r4);
    let at4 = at3 + ser_texts(env).len();
    lemma_at_bytes(input, at4, lit(",\"vt\":"), r5);
    let at5 = at4 + lit(",\"vt\":").len();
    assert(r6[0] == OBJECT_CLOSE);
    lemma_at_number(input, at5, vt as u64, r6);
    let at6 = at5 + ser_number(vt as nat).len();
    lemma_at_bytes(input, at6, seq![OBJECT_CLOSE], rest);
}

/// How what a request carries is written behind its name, where it carries
/// something.
pub open spec fn ser_carried(request: RequestView) -> Seq<u8> {
    match request {
        RequestView::InitiateLogin { service, class, user, authenticate } => ser_login(
            service,
            class,
            user,
            authenticate,
        ),
        RequestView::PamResponse { resp } => ser_response(resp),
        RequestView::Args { cmd, env, vt } => ser_args(cmd, env, vt),
        _ => seq![],
    }
}

/// A request that was written is read back where it stands.
pub proof fn lemma_at_request(input: Seq<u8>, pos: int, request: RequestView, rest: Seq<u8>)
    requires
        0 <= pos <= input.len(),
        input.skip(pos) == ser_request(request) + rest,
    ensures
        at_request(input, Some(pos)) == Some((request, pos + ser_request(request).len())),
        pos + ser_request(request).len() <= input.len(),
        input.skip(pos + ser_request(request).len()) == rest,
{
    lemma_request_names(request);
    let name = request_name(request);
    if request is Cancel || request is Start {
        lemma_at_unit(input, pos, name, rest);
    } else {
        let after = seq![OBJECT_CLOSE] + rest;
        let carried = ser_carried(request);
        lemma_regroup(ser_open(name), carried + seq![OBJECT_CLOSE], rest);
        lemma_regroup(carried, seq![OBJECT_CLOSE], rest);
        lemma_at_open(input, pos, name, carried + after);
        let inner = pos + ser_open(name).len();
        match request {
            RequestView::InitiateLogin { service, class, user, authenticate } => {
                lemma_at_login(input, inner, service, class, user, authenticate, after);
            },
            RequestView::PamResponse { resp } => {
                lemma_at_response(input, inner, resp, after);
            },
            RequestView::Args { cmd, env, vt } => {
                lemma_at_args(input, inner, cmd, env, vt, after);
            },
            _ => {},
        }
        lemma_at_bytes(input, inner + carried.len(), seq![OBJECT_CLOSE], rest);
    }
}

/// A login that is read was written so.
pub proof fn lemma_login_written(input: Seq<u8>, pos: Option<int>)
    requires
        at_login(input, pos) is Some,
    ensures
        pos is Some,
        0 <= pos->0 <= behind(at_login(input, pos))->0 <= input.len(),
        value(at_login(input, pos)) is InitiateLogin,
        input.subrange(pos->0, behind(at_login(input, pos))->0) == ser_carried(
            value(at_login(input, pos)),
        ),
{
    let at1 = at_bytes(input, pos, lit("{\"service\":"));
    let service = at_text(input, at1);
    let at2 = behind(service);
    let at3 = at_bytes(input, at2, lit(",\"class\":"));
    let class = at_text(input, at3);
    let at4 = behind(class);
    let at5 = at_bytes(input, at4, lit(",\"user\":"));
    let user = at_text(input, at5);
    let at6 = behind(user);
    let at7 = at_bytes(input, at6, lit(",\"authenticate\":"));
    let authenticate = at_bool(input, at7);
    let at8 = behind(authenticate);
    let end = at_bytes(input, at8, seq![OBJECT_CLOSE]);
    lemma_bytes_written(input, pos, lit("{\"service\":"));
    lemma_text_written(input, at1);
    lemma_bytes_written(input, at2, lit(",\"class\":"));
    lemma_text_written(input, at3);
    lemma_bytes_written(input, at4, lit(",\"user\":"));
    lemma_text_written(input, at5);
    lemma_bytes_written(input, at6, lit(",\"authenticate\":"));
    lemma_bool_written(input, at7);
    lemma_bytes_written(input, at8, seq![OBJECT_CLOSE]);
    lemma_joined(input, at7->0, at8->0, end->0);
    lemma_joined(input, at6->0, at7->0, end->0);
    lemma_joined(input, at5->0, at6->0, end->0);
    lemma_joined(input, at4->0, at5->0, end->0);
    lemma_joined(input, at3->0, at4->0, end->0);
    lemma_joined(input, at2->0, at3->0, end->0);
    lemma_joined(input, at1->0, at2->0, end->0);
    lemma_joined(input, pos->0, at1->0, end->0);
}

/// An answer that is read was written so.
pub proof fn lemma_response_written(input: Seq<u8>, pos: Option<int>)
    requires
        at_response(input, pos) is Some,
    ensures
        pos is Some,
        0 <= pos->0 <= behind(at_response(input, pos))->0 <= input.len(),
        value(at_response(input, pos)) is PamResponse,
        input.subrange(pos->0, behind(at_response(input, pos))->0) == ser_carried(
            value(at_response(input, pos)),
        ),
{
    let at1 = at_bytes(input, pos, lit("{\"resp\":"));
    let resp = at_text(input, at1);
    let at2 = behind(resp);
    let end = at_bytes(input, at2, seq![OBJECT_CLOSE]);
    lemma_bytes_written(input, pos, lit("{\"resp\":"));
    lemma_text_written(input, at1);
    lemma_bytes_written(input, at2, seq![OBJECT_CLOSE]);
    lemma_joined(input, at1->0, at2->0, end->0);
    lemma_joined(input, pos->0, at1->0, end->0);
}

/// Arguments that are read were written so.
pub proof fn lemma_args_written(input: Seq<u8>, pos: Option<int>)
    requires
        at_args(input, pos) is Some,
    ensures
        pos is Some,
        0 <= pos->0 <= behind(at_args(input, pos))->0 <= input.len(),
        value(at_args(input, pos)) is Args,
        input.subrange(pos->0, behind(at_args(input, pos))->0) == ser_carried(
            value(at_args(input, pos)),
        ),
{
    let at1 = at_bytes(input, pos, lit("{\"cmd\":"));
    let cmd = at_texts(input, at1);
    let at2 = behind(cmd);
    let at3 = at_bytes(input, at2, lit(",\"env\":"));
    let env = at_texts(input, at3);
    let at4 = behind(env);
    let at5 = at_bytes(input, at4, lit(",\"vt\":"));
    let vt = at_number(input, at5);
    let at6 = behind(vt);
    let end = at_bytes(input, at6, seq![OBJECT_CLOSE]);
    lemma_bytes_written(input, pos, lit("{\"cmd\":"));
    lemma_texts_written(input, at1);
    lemma_bytes_written(input, at2, lit(",\"env\":"));
    lemma_texts_written(input, at3);
    lemma_bytes_written(input, at4, lit(",\"vt\":"));
    lemma_number_written(input, at5);
    lemma_bytes_written(input, at6, seq![OBJECT_CLOSE]);
    lemma_joined(input, at5->0, at6->0, end->0);
    lemma_joined(input, at4->0, at5->0, end->0);
    lemma_joined(input, at3->0, at4->0, end->0);
    lemma_joined(input, at2->0, at3->0, end->0);
    lemma_joined(input, at1->0, at2->0, end->0);
    lemma_joined(input, pos->0, at1->0, end->0);
}

/// A request that is read was written so.
pub proof fn lemma_request_written(input: Seq<u8>, pos: Option<int>)
    requires
        at_request(input, pos) is Some,
    ensures
        pos is Some,
        0 <= pos->0 <= behind(at_request(input, pos))->0 <= input.len(),
        input.subrange(pos->0, behind(at_request(input, pos))->0) == ser_request(
            value(at_request(input, pos)),
        ),
{
    lemma_head_written(input, pos);
    let head = value(at_head(input, pos));
    let next = behind(at_head(input, pos));
    if head.tagged {
        let carried = if head.tag == lit("InitiateLogin") {
            at_login(input, next)
        } else if head.tag == lit("PamResponse") {
            at_response(input, next)
        } else if head.tag == lit("Args") {
            at_args(input, next)
        } else {
            None
        };
        let inner = behind(carried);
        let end = at_bytes(input, inner, seq![OBJECT_CLOSE]);
        lemma_bytes_written(input, inner, seq![OBJECT_CLOSE]);
        if head.tag == lit("InitiateLogin") {
            lemma_login_written(input, next);
        } else if head.tag == lit("PamResponse") {
            lemma_response_written(input, next);
        } else {
            lemma_args_written(input, next);
        }
        lemma_joined(input, next->0, inner->0, end->0);
        lemma_joined(input, pos->0, next->0, end->0);
    }
}

/// Every request that is read from its first byte to its last was written
/// so: the bytes are those of the request and of no other.
pub proof fn lemma_request_read_was_written(input: Seq<u8>)
    requires
        parse_request(input) is Some,
    ensures
        ser_request(parse_request(input)->0) == input,
{
    lemma_request_written(input, Some(0));
    assert(input.subrange(0, input.len() as int) =~= input);
}

/// Every request that is written is read back as it was.
pub proof fn lemma_request_round_trip(request: RequestView)
    ensures
        parse_request(ser_request(request)) == Some(request),
{
    let input = ser_request(request);
    assert(input.skip(0) =~= input + Seq::<u8>::empty());
    lemma_at_request(input, 0, request, Seq::<u8>::empty());
}

/// To answer a prompt with no answer and to cancel put the same bytes on
/// the wire.
pub proof fn lemma_no_answer_is_written_as_cancel()
    ensures
        ser_request(answer_request(None)) == ser_request(RequestView::Cancel),
{
}

/// Reading is the reverse of writing: bytes are read as a request where,
/// and only where, they are what that request is written as.
pub proof fn lemma_request_read_iff_written(input: Seq<u8>, request: RequestView)
    ensures
        parse_request(input) == Some(request) <==> ser_request(request) == input,
{
    if parse_request(input) == Some(request) {
        lemma_request_read_was_written(input);
    }
    if ser_request(request) == input {
        lemma_request_round_trip(request);
    }
}

/// Reading is the reverse of writing: bytes are read as a reply where, and
/// only where, they are what that reply is written as.
pub proof fn lemma_reply_read_iff_written(input: Seq<u8>, reply: ReplyView)
    ensures
        parse_reply(input) == Some(reply) <==> ser_reply(reply) == input,
{
    if parse_reply(input) == Some(reply) {
        lemma_reply_read_was_written(input);
    }
    if ser_reply(reply) == input {
        lemma_reply_round_trip(reply);
    }
}

/// Two requests are written alike only where they are the same request.
pub proof fn lemma_requests_told_apart(one: RequestView, other: RequestView)
    requires
        ser_request(one) == ser_request(other),
    ensures
        one == other,
{
    lemma_request_round_trip(one);
    lemma_request_round_trip(other);
}

/// Two replies are written alike only where they are the same reply.
pub proof fn lemma_replies_told_apart(one: ReplyView, other: ReplyView)
    requires
        ser_reply(one) == ser_reply(other),
    ensures
        one == other,
{
    lemma_reply_round_trip(one);
    lemma_reply_round_trip(other);
}

/// The greatest number of bytes that a datagram carries.
pub const MAX_DATAGRAM: usize = 10240;

/// The failure to write a message that one datagram cannot hold.
pub open spec fn too_large() -> ErrorView {
    ErrorView::Codec("message exceeds the size of a datagram"@)
}

/// The failure to read a datagram that holds no message.
pub open spec fn not_a_message() -> ErrorView {
    ErrorView::Codec("datagram holds no valid message"@)
}

fn put_login(out: &mut Vec<u8>, service: &str, class: &str, user: &str, authenticate: bool)
    ensures
        final(out)@ == old(out)@ + ser_login(service@, class@, user@, authenticate),
{
    let ghost close = seq![OBJECT_CLOSE];
    let ghost s7 = ser_bool(authenticate) + close;
    let ghost s6 = lit(",\"authenticate\":") + s7;
    let ghost s5 = ser_text(user@) + s6;
    let ghost s4 = lit(",\"user\":") + s5;
    let ghost s3 = ser_text(class@) + s4;
    let ghost s2 = lit(",\"class\":") + s3;
    let ghost s1 = ser_text(service@) + s2;
    let ghost start = out@;
    put_literal(out, "{\"service\":");
    proof {
        lemma_regroup(start, lit("{\"service\":"), s1);
    }
    put_text(out, service);
    proof {
        lemma_regroup(start + lit("{\"service\":"), ser_text(service@), s2);
    }
    let ghost at2 = out@;
    put_literal(out, ",\"class\":");
    proof {
        lemma_regroup(at2, lit(",\"class\":"), s3);
    }
    let ghost at3 = out@;
    put_text(out, class);
    proof {
        lemma_regroup(at3, ser_text(class@), s4);
    }
    let ghost at4 = out@;
    put_literal(out, ",\"user\":");
    proof {
        lemma_regroup(at4, lit(",\"user\":"), s5);
    }
    let ghost at5 = out@;
    put_text(out, user);
    proof {
        lemma_regroup(at5, ser_text(user@), s6);
    }
    let ghost at6 = out@;
    put_literal(out, ",\"authenticate\":");
    proof {
        lemma_regroup(at6, lit(",\"authenticate\":"), s7);
    }
    let ghost at7 = out@;
    put_bool(out, authenticate);
    proof {
        lemma_regroup(at7, ser_bool(authenticate), close);
    }
    out.push(OBJECT_CLOSE);
    assert(out@ == at7 + ser_bool(authenticate) + close);
}

fn put_response(out: &mut Vec<u8>, resp: &str)
    ensures
        final(out)@ == old(out)@ + ser_response(resp@),
{
    put_literal(out, "{\"resp\":");
    put_text(out, resp);
    out.push(OBJECT_CLOSE);
    assert(out@ =~= old(out)@ + ser_response(resp@));
}

fn put_args(out: &mut Vec<u8>, cmd: &Vec<String>, env: &Vec<String>, vt: usize)
    ensures
        final(out)@ == old(out)@ + ser_args(cmd.deep_view(), env.deep_view(), vt),
{
    let ghost close = seq![OBJECT_CLOSE];
    let ghost s5 = ser_number(vt as nat) + close;
    let ghost s4 = lit(",\"vt\":") + s5;
    let ghost s3 = ser_texts(env.deep_view()) + s4;
    let ghost s2 = lit(",\"env\":") + s3;
    let ghost s1 = ser_texts(cmd.deep_view()) + s2;
    let ghost start = out@;
    put_literal(out, "{\"cmd\":");
    proof {
        lemma_regroup(start, lit("{\"cmd\":"), s1);
    }
    let ghost at1 = out@;
    put_texts(out, cmd);
    proof {
        lemma_regroup(at1, ser_texts(cmd.deep_view()), s2);
    }
    let ghost at2 = out@;
    put_literal(out, ",\"env\":");
    proof {
        lemma_regroup(at2, lit(",\"env\":"), s3);
    }
    let ghost at3 = out@;
    put_texts(out, env);
    proof {
        lemma_regroup(at3, ser_texts(env.deep_view()), s4);
    }
    let ghost at4 = out@;
    put_literal(out, ",\"vt\":");
    proof {
        lemma_regroup(at4, lit(",\"vt\":"), s5);
    }
    let ghost at5 = out@;
    put_number(out, vt as u64);
    proof {
        lemma_regroup(at5, ser_number(vt as nat), close);
    }
    out.push(OBJECT_CLOSE);
    assert(out@ == at5 + ser_number(vt as nat) + close);
}

/// Appends `request` to `out` as it is written on the wire.
pub fn put_request(out: &mut Vec<u8>, request: &ParentToSessionChild)
    ensures
        final(out)@ == old(out)@ + ser_request(request@),
{
    let ghost start = out@;
    let ghost close = seq![OBJECT_CLOSE];
    match request {
        ParentToSessionChild::InitiateLogin { service, class, user, authenticate } => {
            put_open(out, "InitiateLogin");
            put_login(out, service.as_str(), class.as_str(), user.as_str(), *authenticate);
            out.push(OBJECT_CLOSE);
            proof {
                let carried = ser_login(service@, class@, user@, *authenticate);
                assert(out@ == start + ser_open(lit("InitiateLogin")) + carried + close);
                lemma_regroup(start + ser_open(lit("InitiateLogin")), carried, close);
                lemma_regroup(start, ser_open(lit("InitiateLogin")), carried + close);
            }
        },
        ParentToSessionChild::PamResponse { resp } => {
            put_open(out, "PamResponse");
            put_response(out, resp.as_str());
            out.push(OBJECT_CLOSE);
            proof {
                let carried = ser_response(resp@);
                assert(out@ == start + ser_open(lit("PamResponse")) + carried + close);
                lemma_regroup(start + ser_open(lit("PamResponse")), carried, close);
                lemma_regroup(start, ser_open(lit("PamResponse")), carried + close);
            }
        },
        ParentToSessionChild::Cancel => put_unit(out, "Cancel"),
        ParentToSessionChild::Args { cmd, env, vt } => {
            put_open(out, "Args");
            put_args(out, cmd, env, *vt);
            out.push(OBJECT_CLOSE);
            proof {
                let carried = ser_args(cmd.deep_view(), env.deep_view(), *vt);
                assert(out@ == start + ser_open(lit("Args")) + carried + close);
                lemma_regroup(start + ser_open(lit("Args")), carried, close);
                lemma_regroup(start, ser_open(lit("Args")), carried + close);
            }
        },
        ParentToSessionChild::Start => put_unit(out, "Start"),
    }
}

fn take_login(buf: &[u8], pos: usize) -> (taken: Option<(ParentToSessionChild, usize)>)
    ensures
        match taken {
            Some((request, end)) => end <= buf.len() && at_login(buf@, Some(pos as int)) == Some(
                (request@, end as int),
            ),
            None => at_login(buf@, Some(pos as int)) is None,
        },
{
    let next = next_literal(buf, pos, "{\"service\":")?;
    let (service, next) = next_text(buf, next)?;
    let next = next_literal(buf, next, ",\"class\":")?;
    let (class, next) = next_text(buf, next)?;
    let next = next_literal(buf, next, ",\"user\":")?;
    let (user, next) = next_text(buf, next)?;
    let next = next_literal(buf, next, ",\"authenticate\":")?;
    let (authenticate, next) = next_bool(buf, next)?;
    let end = next_byte(buf, next, OBJECT_CLOSE)?;
    Some((ParentToSessionChild::InitiateLogin { service, class, user, authenticate }, end))
}

fn take_response(buf: &[u8], pos: usize) -> (taken: Option<(ParentToSessionChild, usize)>)
    ensures
        match taken {
            Some((request, end)) => end <= buf.len() && at_response(buf@, Some(pos as int))
                == Some((request@, end as int)),
            None => at_response(buf@, Some(pos as int)) is None,
        },
{
    let next = next_literal(buf, pos, "{\"resp\":")?;
    let (resp, next) = next_text(buf, next)?;
    let end = next_byte(buf, next, OBJECT_CLOSE)?;
    Some((ParentToSessionChild::PamResponse { resp }, end))
}

fn take_args(buf: &[u8], pos: usize) -> (taken: Option<(ParentToSessionChild, usize)>)
    ensures
        match taken {
            Some((request, end)) => end <= buf.len() && at_args(buf@, Some(pos as int)) == Some(
                (request@, end as int),
            ),
            None => at_args(buf@, Some(pos as int)) is None,
        },
{
    let next = next_literal(buf, pos, "{\"cmd\":")?;
    let (cmd, next) = next_texts(buf, next)?;
    let next = next_literal(buf, next, ",\"env\":")?;
    let (env, next) = next_texts(buf, next)?;
    let next = next_literal(buf, next, ",\"vt\":")?;
    let (number, next) = next_number(buf, next)?;
    let end = next_byte(buf, next, OBJECT_CLOSE)?;
    if number > usize::MAX as u64 {
        return None;
    }
    Some((ParentToSessionChild::Args { cmd, env, vt: number as usize }, end))
}

/// Reads the request that `buf` holds at `pos`: the request and the
/// position behind it, or `None` where no request stands there.
pub fn take_request(buf: &[u8], pos: usize) -> (taken: Option<(ParentToSessionChild, usize)>)
    ensures
        match taken {
            Some((request, end)) => end <= buf.len() && at_request(buf@, Some(pos as int))
                == Some((request@, end as int)),
            None => at_request(buf@, Some(pos as int)) is None,
        },
{
    let head = next_head(buf, pos)?;
    if !head.tagged {
        if holds_literal(buf, head.start, head.end, "Cancel") {
            Some((ParentToSessionChild::Cancel, head.next))
        } else if holds_literal(buf, head.start, head.end, "Start") {
            Some((ParentToSessionChild::Start, head.next))
        } else {
            None
        }
    } else {
        let (request, next) = if holds_literal(buf, head.start, head.end, "InitiateLogin") {
            take_login(buf, head.next)?
        } else if holds_literal(buf, head.start, head.end, "PamResponse") {
            take_response(buf, head.next)?
        } else if holds_literal(buf, head.start, head.end, "Args") {
            take_args(buf, head.next)?
        } else {
            return None;
        };
        let end = next_byte(buf, next, OBJECT_CLOSE)?;
        Some((request, end))
    }
}

/// Writes `request` as the datagram that carries it. Fails where the
/// request takes more bytes than a datagram has. What was written is read
/// back as the same request.
pub fn encode_request(request: &ParentToSessionChild) -> (datagram: Result<Vec<u8>, Error>)
    ensures
        match datagram {
            Ok(bytes) => bytes@ == ser_request(request@) && bytes.len() <= MAX_DATAGRAM
                && parse_request(bytes@) == Some(request@),
            Err(error) => ser_request(request@).len() > MAX_DATAGRAM && error@ == too_large(),
        },
{
    let mut bytes: Vec<u8> = Vec::new();
    put_request(&mut bytes, request);
    assert(bytes@ =~= ser_request(request@));
    proof {
        lemma_request_round_trip(request@);
    }
    if bytes.len() > MAX_DATAGRAM {
        Err(Error::Codec("message exceeds the size of a datagram".to_owned()))
    } else {
        Ok(bytes)
    }
}

/// Reads the request that `datagram` carries: the one that is written as
/// these bytes. Fails where the datagram is longer than any that is sent,
/// or no request is written so.
pub fn decode_request(datagram: &[u8]) -> (request: Result<ParentToSessionChild, Error>)
    ensures
        match request {
            Ok(message) => datagram.len() <= MAX_DATAGRAM && ser_request(message@) == datagram@
                && parse_request(datagram@) == Some(message@),
            Err(error) => error@ == not_a_message() && (datagram.len() > MAX_DATAGRAM || (
            parse_request(datagram@) is None && forall|message: RequestView|
                #[trigger] ser_request(message) != datagram@)),
        },
{
    if datagram.len() <= MAX_DATAGRAM {
        match take_request(datagram, 0) {
            Some((message, end)) => {
                if end == datagram.len() {
                    proof {
                        lemma_request_read_was_written(datagram@);
                    }
                    return Ok(message);
                }
            },
            None => {},
        }
        assert forall|message: RequestView| #[trigger]
            ser_request(message) != datagram@ by {
            lemma_request_read_iff_written(datagram@, message);
        }
    }
    Err(Error::Codec("datagram holds no valid message".to_owned()))
}

/// How a prompt is written behind its name: an object with the style and
/// the text.
pub open spec fn ser_prompt(style: QuestionStyle, text: Seq<char>) -> Seq<u8> {
    lit("{\"style\":") + (ser_style(style) + (lit(",\"text\":") + (ser_text(text)
        + seq![OBJECT_CLOSE])))
}

/// How what a reply carries is written behind its name, where it carries
/// something.
pub open spec fn ser_reply_carried(reply: ReplyView) -> Seq<u8> {
    match reply {
        ReplyView::PamMessage { style, text } => ser_prompt(style, text),
        ReplyView::Success => seq![],
        ReplyView::Error(error) => ser_error(error),
        ReplyView::FinalChildPid(pid) => ser_number(pid as nat),
    }
}

/// The name of the variant of a reply on the wire.
pub open spec fn reply_name(reply: ReplyView) -> Seq<u8> {
    kind_name(reply.kind())
}

/// How a reply is written.
pub open spec fn ser_reply(reply: ReplyView) -> Seq<u8> {
    if reply is Success {
        ser_unit(reply_name(reply))
    } else {
        ser_open(reply_name(reply)) + (ser_reply_carried(reply) + seq![OBJECT_CLOSE])
    }
}

/// The prompt that `input` holds at `pos`, behind its name, and where it
/// ends.
pub open spec fn at_prompt(input: Seq<u8>, pos: Option<int>) -> Option<(ReplyView, int)> {
    let style = at_style(input, at_bytes(input, pos, lit("{\"style\":")));
    let text = at_text(input, at_bytes(input, behind(style), lit(",\"text\":")));
    let end = at_bytes(input, behind(text), seq![OBJECT_CLOSE]);
    if end is Some {
        Some((ReplyView::PamMessage { style: value(style), text: value(text) }, end->0))
    } else {
        None
    }
}

/// The failure that `input` holds at `pos` as what a reply carries, and
/// where it ends.
pub open spec fn at_failure(input: Seq<u8>, pos: Option<int>) -> Option<(ReplyView, int)> {
    match at_error(input, pos) {
        Some((error, end)) => Some((ReplyView::Error(error), end)),
        None => None,
    }
}

/// The reported process that `input` holds at `pos` as what a reply
/// carries, and where it ends.
pub open spec fn at_report(input: Seq<u8>, pos: Option<int>) -> Option<(ReplyView, int)> {
    match at_number(input, pos) {
        Some((pid, end)) => Some((ReplyView::FinalChildPid(pid), end)),
        None => None,
    }
}

/// The reply that `input` holds at `pos`, and where it ends.
pub open spec fn at_reply(input: Seq<u8>, pos: Option<int>) -> Option<(ReplyView, int)> {
    match at_head(input, pos) {
        Some((head, next)) => {
            if !head.tagged {
                if head.tag == lit("Success") {
                    Some((ReplyView::Success, next))
                } else {
                    None
                }
            } else {
                let carried = if head.tag == lit("PamMessage") {
                    at_prompt(input, Some(next))
                } else if head.tag == lit("Error") {
                    at_failure(input, Some(next))
                } else if head.tag == lit("FinalChildPid") {
                    at_report(input, Some(next))
                } else {
                    None
                };
                let end = at_bytes(input, behind(carried), seq![OBJECT_CLOSE]);
                if end is Some {
                    Some((value(carried), end->0))
                } else {
                    None
                }
            }
        },
        None => None,
    }
}

/// The reply that `input` is, from its first byte to its last.
pub open spec fn parse_reply(input: Seq<u8>) -> Option<ReplyView> {
    match at_reply(input, Some(0)) {
        Some((reply, end)) => if end == input.len() {
            Some(reply)
        } else {
            None
        },
        None => None,
    }
}

/// A prompt that was written is read back where it stands.
pub proof fn lemma_at_prompt(
    input: Seq<u8>,
    pos: int,
    style: QuestionStyle,
    text: Seq<char>,
    rest: Seq<u8>,
)
    requires
        0 <= pos <= input.len(),
        input.skip(pos) == ser_prompt(style, text) + rest,
    ensures
        at_prompt(input, Some(pos)) == Some(
            (ReplyView::PamMessage { style, text }, pos + ser_prompt(style, text).len()),
        ),
        pos + ser_prompt(style, text).len() <= input.len(),
        input.skip(pos + ser_prompt(style, text).len()) == rest,
{
    let close = seq![OBJECT_CLOSE];
    let s3 = ser_text(text) + close;
    let s2 = lit(",\"text\":") + s3;
    let s1 = ser_style(style) + s2;
    let r4 = close + rest;
    let r3 = ser_text(text) + r4;
    let r2 = lit(",\"text\":") + r3;
    let r1 = ser_style(style) + r2;
    lemma_regroup(lit("{\"style\":"), s1, rest);
    lemma_regroup(ser_style(style), s2, rest);
    lemma_regroup(lit(",\"text\":"), s3, rest);
    lemma_regroup(ser_text(text), close, rest);
    lemma_at_bytes(input, pos, lit("{\"style\":"), r1);
    let at1 = pos + lit("{\"style\":").len();
    lemma_at_style(input, at1, style, r2);
    let at2 = at1 + ser_style(style).len();
    lemma_at_bytes(input, at2, lit(",\"text\":"), r3);
    let at3 = at2 + lit(",\"text\":").len();
    lemma_at_text(input, at3, text, r4);
    let at4 = at3 + ser_text(text).len();
    lemma_at_bytes(input, at4, close, rest);
}

/// A reply that was written is read back where it stands.
pub proof fn lemma_at_reply(input: Seq<u8>, pos: int, reply: ReplyView, rest: Seq<u8>)
    requires
        0 <= pos <= input.len(),
        input.skip(pos) == ser_reply(reply) + rest,
    ensures
        at_reply(input, Some(pos)) == Some((reply, pos + ser_reply(reply).len())),
        pos + ser_reply(reply).len() <= input.len(),
        input.skip(pos + ser_reply(reply).len()) == rest,
{
    lemma_kind_names(reply.kind());
    lemma_kind_names(ReplyKind::PamMessage);
    lemma_kind_names(ReplyKind::Success);
    lemma_kind_names(ReplyKind::Error);
    lemma_kind_names(ReplyKind::FinalChildPid);
    let name = reply_name(reply);
    if reply is Success {
        lemma_at_unit(input, pos, name, rest);
    } else {
        let close = seq![OBJECT_CLOSE];
        let after = close + rest;
        let carried = ser_reply_carried(reply);
        lemma_regroup(ser_open(name), carried + close, rest);
        lemma_regroup(carried, close, rest);
        lemma_at_open(input, pos, name, carried + after);
        let inner = pos + ser_open(name).len();
        match reply {
            ReplyView::PamMessage { style, text } => {
                lemma_at_prompt(input, inner, style, text, after);
            },
            ReplyView::Error(error) => {
                lemma_at_error(input, inner, error, after);
            },
            ReplyView::FinalChildPid(pid) => {
                assert(after[0] == OBJECT_CLOSE);
                lemma_at_number(input, inner, pid, after);
            },
            _ => {},
        }
        lemma_at_bytes(input, inner + carried.len(), close, rest);
    }
}

/// A prompt that is read was written so.
pub proof fn lemma_prompt_written(input: Seq<u8>, pos: Option<int>)
    requires
        at_prompt(input, pos) is Some,
    ensures
        pos is Some,
        0 <= pos->0 <= behind(at_prompt(input, pos))->0 <= input.len(),
        value(at_prompt(input, pos)) is PamMessage,
        input.subrange(pos->0, behind(at_prompt(input, pos))->0) == ser_reply_carried(
            value(at_prompt(input, pos)),
        ),
{
    let at1 = at_bytes(input, pos, lit("{\"style\":"));
    let style = at_style(input, at1);
    let at2 = behind(style);
    let at3 = at_bytes(input, at2, lit(",\"text\":"));
    let text = at_text(input, at3);
    let at4 = behind(text);
    let end = at_bytes(input, at4, seq![OBJECT_CLOSE]);
    lemma_bytes_written(input, pos, lit("{\"style\":"));
    lemma_style_written(input, at1);
    lemma_bytes_written(input, at2, lit(",\"text\":"));
    lemma_text_written(input, at3);
    lemma_bytes_written(input, at4, seq![OBJECT_CLOSE]);
    lemma_joined(input, at3->0, at4->0, end->0);
    lemma_joined(input, at2->0, at3->0, end->0);
    lemma_joined(input, at1->0, at2->0, end->0);
    lemma_joined(input, pos->0, at1->0, end->0);
}

/// A reply that is read was written so.
pub proof fn lemma_reply_written(input: Seq<u8>, pos: Option<int>)
    requires
        at_reply(input, pos) is Some,
    ensures
        pos is Some,
        0 <= pos->0 <= behind(at_reply(input, pos))->0 <= input.len(),
        input.subrange(pos->0, behind(at_reply(input, pos))->0) == ser_reply(
            value(at_reply(input, pos)),
        ),
{
    lemma_head_written(input, pos);
    let head = value(at_head(input, pos));
    let next = behind(at_head(input, pos));
    if head.tagged {
        let carried = if head.tag == lit("PamMessage") {
            at_prompt(input, next)
        } else if head.tag == lit("Error") {
            at_failure(input, next)
        } else if head.tag == lit("FinalChildPid") {
            at_report(input, next)
        } else {
            None
        };
        let inner = behind(carried);
        let end = at_bytes(input, inner, seq![OBJECT_CLOSE]);
        lemma_bytes_written(input, inner, seq![OBJECT_CLOSE]);
        if head.tag == lit("PamMessage") {
            lemma_prompt_written(input, next);
        } else if head.tag == lit("Error") {
            lemma_error_written(input, next);
        } else {
            lemma_number_written(input, next);
        }
        lemma_joined(input, next->0, inner->0, end->0);
        lemma_joined(input, pos->0, next->0, end->0);
    }
}

/// Every reply that is read from its first byte to its last was written so:
/// the bytes are those of the reply and of no other.
pub proof fn lemma_reply_read_was_written(input: Seq<u8>)
    requires
        parse_reply(input) is Some,
    ensures
        ser_reply(parse_reply(input)->0) == input,
{
    lemma_reply_written(input, Some(0));
    assert(input.subrange(0, input.len() as int) =~= input);
}

/// Every reply that is written is read back as it was.
pub proof fn lemma_reply_round_trip(reply: ReplyView)
    ensures
        parse_reply(ser_reply(reply)) == Some(reply),
{
    let input = ser_reply(reply);
    assert(input.skip(0) =~= input + Seq::<u8>::empty());
    lemma_at_reply(input, 0, reply, Seq::<u8>::empty());
}

fn put_prompt(out: &mut Vec<u8>, style: QuestionStyle, text: &str)
    ensures
        final(out)@ == old(out)@ + ser_prompt(style, text@),
{
    let ghost close = seq![OBJECT_CLOSE];
    let ghost s3 = ser_text(text@) + close;
    let ghost s2 = lit(",\"text\":") + s3;
    let ghost s1 = ser_style(style) + s2;
    let ghost start = out@;
    put_literal(out, "{\"style\":");
    proof {
        lemma_regroup(start, lit("{\"style\":"), s1);
    }
    let ghost at1 = out@;
    put_style(out, style);
    proof {
        lemma_regroup(at1, ser_style(style), s2);
    }
    let ghost at2 = out@;
    put_literal(out, ",\"text\":");
    proof {
        lemma_regroup(at2, lit(",\"text\":"), s3);
    }
    let ghost at3 = out@;
    put_text(out, text);
    proof {
        lemma_regroup(at3, ser_text(text@), close);
    }
    out.push(OBJECT_CLOSE);
    assert(out@ == at3 + ser_text(text@) + close);
}

/// Appends `reply` to `out` as it is written on the wire.
pub fn put_reply(out: &mut Vec<u8>, reply: &SessionChildToParent)
    ensures
        final(out)@ == old(out)@ + ser_reply(reply@),
{
    let ghost start = out@;
    let ghost close = seq![OBJECT_CLOSE];
    let ghost carried = ser_reply_carried(reply@);
    let ghost name = reply_name(reply@);
    match reply {
        SessionChildToParent::PamMessage { style, text } => {
            put_open(out, "PamMessage");
            put_prompt(out, *style, text.as_str());
        },
        SessionChildToParent::Success => {
            put_unit(out, "Success");
            return ;
        },
        SessionChildToParent::Error(error) => {
            put_open(out, "Error");
            put_error(out, error);
        },
        SessionChildToParent::FinalChildPid(pid) => {
            put_open(out, "FinalChildPid");
            put_number(out, *pid);
        },
    }
    out.push(OBJECT_CLOSE);
    proof {
        assert(out@ == start + ser_open(name) + carried + close);
        lemma_regroup(start + ser_open(name), carried, close);
        lemma_regroup(start, ser_open(name), carried + close);
    }
}

fn take_prompt(buf: &[u8], pos: usize) -> (taken: Option<(SessionChildToParent, usize)>)
    ensures
        match taken {
            Some((reply, end)) => end <= buf.len() && at_prompt(buf@, Some(pos as int)) == Some(
                (reply@, end as int),
            ),
            None => at_prompt(buf@, Some(pos as int)) is None,
        },
{
    let next = next_literal(buf, pos, "{\"style\":")?;
    let (style, next) = take_style(buf, next)?;
    let next = next_literal(buf, next, ",\"text\":")?;
    let (text, next) = next_text(buf, next)?;
    let end = next_byte(buf, next, OBJECT_CLOSE)?;
    Some((SessionChildToParent::PamMessage { style, text }, end))
}

fn take_failure(buf: &[u8], pos: usize) -> (taken: Option<(SessionChildToParent, usize)>)
    ensures
        match taken {
            Some((reply, end)) => end <= buf.len() && at_failure(buf@, Some(pos as int)) == Some(
                (reply@, end as int),
            ),
            None => at_failure(buf@, Some(pos as int)) is None,
        },
{
    let (error, end) = take_error(buf, pos)?;
    Some((SessionChildToParent::Error(error), end))
}

fn take_report(buf: &[u8], pos: usize) -> (taken: Option<(SessionChildToParent, usize)>)
    ensures
        match taken {
            Some((reply, end)) => end <= buf.len() && at_report(buf@, Some(pos as int)) == Some(
                (reply@, end as int),
            ),
            None => at_report(buf@, Some(pos as int)) is None,
        },
{
    let (pid, end) = next_number(buf, pos)?;
    Some((SessionChildToParent::FinalChildPid(pid), end))
}

/// Reads the reply that `buf` holds at `pos`: the reply and the position
/// behind it, or `None` where no reply stands there.
pub fn take_reply(buf: &[u8], pos: usize) -> (taken: Option<(SessionChildToParent, usize)>)
    ensures
        match taken {
            Some((reply, end)) => end <= buf.len() && at_reply(buf@, Some(pos as int)) == Some(
                (reply@, end as int),
            ),
            None => at_reply(buf@, Some(pos as int)) is None,
        },
{
    let head = next_head(buf, pos)?;
    if !head.tagged {
        if holds_literal(buf, head.start, head.end, "Success") {
            Some((SessionChildToParent::Success, head.next))
        } else {
            None
        }
    } else {
        let (reply, next) = if holds_literal(buf, head.start, head.end, "PamMessage") {
            take_prompt(buf, head.next)?
        } else if holds_literal(buf, head.start, head.end, "Error") {
            take_failure(buf, head.next)?
        } else if holds_literal(buf, head.start, head.end, "FinalChildPid") {
            take_report(buf, head.next)?
        } else {
            return None;
        };
        let end = next_byte(buf, next, OBJECT_CLOSE)?;
        Some((reply, end))
    }
}

/// Writes `reply` as the datagram that carries it. Fails where the reply
/// takes more bytes than a datagram has. What was written is read back as
/// the same reply.
pub fn encode_reply(reply: &SessionChildToParent) -> (datagram: Result<Vec<u8>, Error>)
    ensures
        match datagram {
            Ok(bytes) => bytes@ == ser_reply(reply@) && bytes.len() <= MAX_DATAGRAM
                && parse_reply(bytes@) == Some(reply@),
            Err(error) => ser_reply(reply@).len() > MAX_DATAGRAM && error@ == too_large(),
        },
{
    let mut bytes: Vec<u8> = Vec::new();
    put_reply(&mut bytes, reply);
    assert(bytes@ =~= ser_reply(reply@));
    proof {
        lemma_reply_round_trip(reply@);
    }
    if bytes.len() > MAX_DATAGRAM {
        Err(Error::Codec("message exceeds the size of a datagram".to_owned()))
    } else {
        Ok(bytes)
    }
}

/// Reads the reply that `datagram` carries: the one that is written as
/// these bytes. Fails where the datagram is longer than any that is sent,
/// or no reply is written so.
pub fn decode_reply(datagram: &[u8]) -> (reply: Result<SessionChildToParent, Error>)
    ensures
        match reply {
            Ok(message) => datagram.len() <= MAX_DATAGRAM && ser_reply(message@) == datagram@
                && parse_reply(datagram@) == Some(message@),
            Err(error) => error@ == not_a_message() && (datagram.len() > MAX_DATAGRAM || (
            parse_reply(datagram@) is None && forall|message: ReplyView|
                #[trigger] ser_reply(message) != datagram@)),
        },
{
    if datagram.len() <= MAX_DATAGRAM {
        match take_reply(datagram, 0) {
            Some((message, end)) => {
                if end == datagram.len() {
                    proof {
                        lemma_reply_read_was_written(datagram@);
                    }
                    return Ok(message);
                }
            },
            None => {},
        }
        assert forall|message: ReplyView| #[trigger] ser_reply(message) != datagram@ by {
            lemma_reply_read_iff_written(datagram@, message);
        }
    }
    Err(Error::Codec("datagram holds no valid message".to_owned()))
}

} // verus!
