//! Reading one piece after the other.
//!
//! A message is a row of pieces, each of which begins where the one before
//! it ended. The functions here say which piece stands at a position of
//! some bytes and where it ends. The position is an `Option`, so that a row
//! is read without a test after every piece: behind a piece that is not
//! there, no other is.

use vstd::prelude::*;
use vstd::utf8::is_ascii_chars;
use crate::json::{
    all_in, lemma_parse_bool, lemma_parse_bool_written, lemma_parse_head_written,
    lemma_parse_number, lemma_parse_number_written, lemma_parse_open, lemma_parse_text,
    lemma_parse_text_written, lemma_parse_texts, lemma_parse_texts_written, lemma_parse_unit, lit,
    parse_bool, parse_head, parse_number, parse_text, parse_texts, ser_bool, ser_head, ser_number,
    ser_open, ser_text, ser_texts, ser_unit, skip_literal, starts_with, take_bool, take_head,
    take_number, take_text, take_texts, Class, Head, Variant,
};

verus! {

/// The position behind a piece that was read.
pub open spec fn behind<T>(piece: Option<(T, int)>) -> Option<int> {
    match piece {
        Some((_, end)) => Some(end),
        None => None,
    }
}

/// The value of a piece that was read.
pub open spec fn value<T>(piece: Option<(T, int)>) -> T {
    (piece->0).0
}

/// A piece that takes up `taken` bytes from `pos`, with its end in place of
/// its length.
pub open spec fn placed<T>(pos: int, piece: Option<(T, nat)>) -> Option<(T, int)> {
    match piece {
        Some((value, taken)) => Some((value, pos + taken)),
        None => None,
    }
}

/// The position behind `bytes`, where `input` holds them at `pos`.
#[verifier::opaque]
pub open spec fn bytes_from(input: Seq<u8>, pos: int, bytes: Seq<u8>) -> Option<int> {
    if 0 <= pos <= input.len() && starts_with(input.skip(pos), bytes) {
        Some(pos + bytes.len())
    } else {
        None
    }
}

/// The text that `input` holds at `pos`, and where it ends.
#[verifier::opaque]
pub open spec fn text_from(input: Seq<u8>, pos: int) -> Option<(Seq<char>, int)> {
    if 0 <= pos <= input.len() {
        placed(pos, parse_text(input.skip(pos)))
    } else {
        None
    }
}

/// The list of texts that `input` holds at `pos`, and where it ends.
#[verifier::opaque]
pub open spec fn texts_from(input: Seq<u8>, pos: int) -> Option<(Seq<Seq<char>>, int)> {
    if 0 <= pos <= input.len() {
        placed(pos, parse_texts(input.skip(pos)))
    } else {
        None
    }
}

/// The number that `input` holds at `pos`, and where it ends.
#[verifier::opaque]
pub open spec fn number_from(input: Seq<u8>, pos: int) -> Option<(u64, int)> {
    if 0 <= pos <= input.len() {
        placed(pos, parse_number(input.skip(pos)))
    } else {
        None
    }
}

/// The truth value that `input` holds at `pos`, and where it ends.
#[verifier::opaque]
pub open spec fn bool_from(input: Seq<u8>, pos: int) -> Option<(bool, int)> {
    if 0 <= pos <= input.len() {
        placed(pos, parse_bool(input.skip(pos)))
    } else {
        None
    }
}

/// The beginning of the variant that `input` holds at `pos`, and where what
/// follows it begins.
#[verifier::opaque]
pub open spec fn head_from(input: Seq<u8>, pos: int) -> Option<(Head, int)> {
    if 0 <= pos <= input.len() {
        match parse_head(input.skip(pos)) {
            Some(head) => Some((head, pos + head.taken)),
            None => None,
        }
    } else {
        None
    }
}

/// The position behind `bytes`, where `input` holds them at `pos`. Behind a
/// piece that is not there, nothing is.
pub open spec fn at_bytes(input: Seq<u8>, pos: Option<int>, bytes: Seq<u8>) -> Option<int> {
    match pos {
        Some(at) => bytes_from(input, at, bytes),
        None => None,
    }
}

/// The text that `input` holds at `pos`, and where it ends.
pub open spec fn at_text(input: Seq<u8>, pos: Option<int>) -> Option<(Seq<char>, int)> {
    match pos {
        Some(at) => text_from(input, at),
        None => None,
    }
}

/// The list of texts that `input` holds at `pos`, and where it ends.
pub open spec fn at_texts(input: Seq<u8>, pos: Option<int>) -> Option<(Seq<Seq<char>>, int)> {
    match pos {
        Some(at) => texts_from(input, at),
        None => None,
    }
}

/// The number that `input` holds at `pos`, and where it ends.
pub open spec fn at_number(input: Seq<u8>, pos: Option<int>) -> Option<(u64, int)> {
    match pos {
        Some(at) => number_from(input, at),
        None => None,
    }
}

/// The truth value that `input` holds at `pos`, and where it ends.
pub open spec fn at_bool(input: Seq<u8>, pos: Option<int>) -> Option<(bool, int)> {
    match pos {
        Some(at) => bool_from(input, at),
        None => None,
    }
}

/// The beginning of the variant that `input` holds at `pos`, and where what
/// follows it begins.
pub open spec fn at_head(input: Seq<u8>, pos: Option<int>) -> Option<(Head, int)> {
    match pos {
        Some(at) => head_from(input, at),
        None => None,
    }
}

/// The name of the variant that carries nothing and stands in `input` at
/// `pos`, and where it ends.
pub open spec fn at_unit(input: Seq<u8>, pos: Option<int>) -> Option<(Seq<u8>, int)> {
    match at_head(input, pos) {
        Some((head, end)) => if head.tagged {
            None
        } else {
            Some((head.tag, end))
        },
        None => None,
    }
}

/// Bytes that are put together in one order are the same in the other.
pub proof fn lemma_regroup(front: Seq<u8>, middle: Seq<u8>, rest: Seq<u8>)
    ensures
        (front + middle) + rest == front + (middle + rest),
{
    assert((front + middle) + rest =~= front + (middle + rest));
}

/// Bytes that begin with `front` hold it, and what follows it begins where
/// it ends.
pub proof fn lemma_at_bytes(input: Seq<u8>, pos: int, front: Seq<u8>, rest: Seq<u8>)
    requires
        0 <= pos <= input.len(),
        input.skip(pos) == front + rest,
    ensures
        at_bytes(input, Some(pos), front) == Some(pos + front.len()),
        pos + front.len() <= input.len(),
        input.skip(pos + front.len()) == rest,
{
    reveal(bytes_from);
    assert((front + rest).subrange(0, front.len() as int) =~= front);
    assert(input.skip(pos + front.len()) =~= (front + rest).skip(front.len() as int));
    assert((front + rest).skip(front.len() as int) =~= rest);
}

/// A text that was written is read back where it stands.
pub proof fn lemma_at_text(input: Seq<u8>, pos: int, text: Seq<char>, rest: Seq<u8>)
    requires
        0 <= pos <= input.len(),
        input.skip(pos) == ser_text(text) + rest,
    ensures
        at_text(input, Some(pos)) == Some((text, pos + ser_text(text).len())),
        pos + ser_text(text).len() <= input.len(),
        input.skip(pos + ser_text(text).len()) == rest,
{
    reveal(text_from);
    lemma_parse_text(text, rest);
    lemma_at_bytes(input, pos, ser_text(text), rest);
}

/// A list of texts that was written is read back where it stands.
pub proof fn lemma_at_texts(input: Seq<u8>, pos: int, items: Seq<Seq<char>>, rest: Seq<u8>)
    requires
        0 <= pos <= input.len(),
        input.skip(pos) == ser_texts(items) + rest,
    ensures
        at_texts(input, Some(pos)) == Some((items, pos + ser_texts(items).len())),
        pos + ser_texts(items).len() <= input.len(),
        input.skip(pos + ser_texts(items).len()) == rest,
{
    reveal(texts_from);
    lemma_parse_texts(items, rest);
    lemma_at_bytes(input, pos, ser_texts(items), rest);
}

/// A number that was written is read back where it stands, unless a digit
/// follows it.
pub proof fn lemma_at_number(input: Seq<u8>, pos: int, number: u64, rest: Seq<u8>)
    requires
        0 <= pos <= input.len(),
        input.skip(pos) == ser_number(number as nat) + rest,
        rest.len() == 0 || !Class::Digit.holds(rest[0]),
    ensures
        at_number(input, Some(pos)) == Some((number, pos + ser_number(number as nat).len())),
        pos + ser_number(number as nat).len() <= input.len(),
        input.skip(pos + ser_number(number as nat).len()) == rest,
{
    reveal(number_from);
    lemma_parse_number(number, rest);
    lemma_at_bytes(input, pos, ser_number(number as nat), rest);
}

/// A truth value that was written is read back where it stands.
pub proof fn lemma_at_bool(input: Seq<u8>, pos: int, value: bool, rest: Seq<u8>)
    requires
        0 <= pos <= input.len(),
        input.skip(pos) == ser_bool(value) + rest,
    ensures
        at_bool(input, Some(pos)) == Some((value, pos + ser_bool(value).len())),
        pos + ser_bool(value).len() <= input.len(),
        input.skip(pos + ser_bool(value).len()) == rest,
{
    reveal(bool_from);
    lemma_parse_bool(value, rest);
    lemma_at_bytes(input, pos, ser_bool(value), rest);
}

/// The name of a variant that carries nothing is read back where it stands.
pub proof fn lemma_at_unit(input: Seq<u8>, pos: int, tag: Seq<u8>, rest: Seq<u8>)
    requires
        0 <= pos <= input.len(),
        input.skip(pos) == ser_unit(tag) + rest,
        all_in(Class::Letter, tag),
    ensures
        at_head(input, Some(pos)) == Some(
            (Head { tagged: false, tag, taken: ser_unit(tag).len() }, pos + ser_unit(tag).len()),
        ),
        at_unit(input, Some(pos)) == Some((tag, pos + ser_unit(tag).len())),
        pos + ser_unit(tag).len() <= input.len(),
        input.skip(pos + ser_unit(tag).len()) == rest,
{
    reveal(head_from);
    lemma_parse_unit(tag, rest);
    lemma_at_bytes(input, pos, ser_unit(tag), rest);
}

/// The name of a variant that carries something is read back where it
/// stands.
pub proof fn lemma_at_open(input: Seq<u8>, pos: int, tag: Seq<u8>, rest: Seq<u8>)
    requires
        0 <= pos <= input.len(),
        input.skip(pos) == ser_open(tag) + rest,
        all_in(Class::Letter, tag),
    ensures
        at_head(input, Some(pos)) == Some(
            (Head { tagged: true, tag, taken: ser_open(tag).len() }, pos + ser_open(tag).len()),
        ),
        pos + ser_open(tag).len() <= input.len(),
        input.skip(pos + ser_open(tag).len()) == rest,
{
    reveal(head_from);
    lemma_parse_open(tag, rest);
    lemma_at_bytes(input, pos, ser_open(tag), rest);
}

/// What stands between two positions is what stands up to a position
/// between them, and then what stands from there.
pub proof fn lemma_joined(input: Seq<u8>, from: int, middle: int, to: int)
    requires
        0 <= from <= middle <= to <= input.len(),
    ensures
        input.subrange(from, to) == input.subrange(from, middle) + input.subrange(middle, to),
{
    assert(input.subrange(from, to) =~= input.subrange(from, middle) + input.subrange(
        middle,
        to,
    ));
}

/// Bytes that are found stand between where they begin and where they end.
pub proof fn lemma_bytes_written(input: Seq<u8>, pos: Option<int>, bytes: Seq<u8>)
    requires
        at_bytes(input, pos, bytes) is Some,
    ensures
        pos is Some,
        0 <= pos->0 <= at_bytes(input, pos, bytes)->0 <= input.len(),
        input.subrange(pos->0, at_bytes(input, pos, bytes)->0) == bytes,
{
    reveal(bytes_from);
    let at = pos->0;
    assert(input.subrange(at, at + bytes.len()) =~= input.skip(at).subrange(0, bytes.len() as int));
}

/// A text that is read was written so.
pub proof fn lemma_text_written(input: Seq<u8>, pos: Option<int>)
    requires
        at_text(input, pos) is Some,
    ensures
        pos is Some,
        0 <= pos->0 <= behind(at_text(input, pos))->0 <= input.len(),
        input.subrange(pos->0, behind(at_text(input, pos))->0) == ser_text(
            value(at_text(input, pos)),
        ),
{
    reveal(text_from);
    let at = pos->0;
    lemma_parse_text_written(input.skip(at));
    let taken = (parse_text(input.skip(at))->0).1 as int;
    assert(input.subrange(at, at + taken) =~= input.skip(at).subrange(0, taken));
}

/// A list of texts that is read was written so.
pub proof fn lemma_texts_written(input: Seq<u8>, pos: Option<int>)
    requires
        at_texts(input, pos) is Some,
    ensures
        pos is Some,
        0 <= pos->0 <= behind(at_texts(input, pos))->0 <= input.len(),
        input.subrange(pos->0, behind(at_texts(input, pos))->0) == ser_texts(
            value(at_texts(input, pos)),
        ),
{
    reveal(texts_from);
    let at = pos->0;
    lemma_parse_texts_written(input.skip(at));
    let taken = (parse_texts(input.skip(at))->0).1 as int;
    assert(input.subrange(at, at + taken) =~= input.skip(at).subrange(0, taken));
}

/// A number that is read was written so.
pub proof fn lemma_number_written(input: Seq<u8>, pos: Option<int>)
    requires
        at_number(input, pos) is Some,
    ensures
        pos is Some,
        0 <= pos->0 <= behind(at_number(input, pos))->0 <= input.len(),
        input.subrange(pos->0, behind(at_number(input, pos))->0) == ser_number(
            value(at_number(input, pos)) as nat,
        ),
{
    reveal(number_from);
    let at = pos->0;
    lemma_parse_number_written(input.skip(at));
    let taken = (parse_number(input.skip(at))->0).1 as int;
    assert(input.subrange(at, at + taken) =~= input.skip(at).subrange(0, taken));
}

/// A truth value that is read was written so.
pub proof fn lemma_bool_written(input: Seq<u8>, pos: Option<int>)
    requires
        at_bool(input, pos) is Some,
    ensures
        pos is Some,
        0 <= pos->0 <= behind(at_bool(input, pos))->0 <= input.len(),
        input.subrange(pos->0, behind(at_bool(input, pos))->0) == ser_bool(
            value(at_bool(input, pos)),
        ),
{
    reveal(bool_from);
    let at = pos->0;
    lemma_parse_bool_written(input.skip(at));
    let taken = (parse_bool(input.skip(at))->0).1 as int;
    assert(input.subrange(at, at + taken) =~= input.skip(at).subrange(0, taken));
}

/// The beginning of a variant that is read was written so, and its name is
/// made of letters.
pub proof fn lemma_head_written(input: Seq<u8>, pos: Option<int>)
    requires
        at_head(input, pos) is Some,
    ensures
        pos is Some,
        0 <= pos->0 <= behind(at_head(input, pos))->0 <= input.len(),
        input.subrange(pos->0, behind(at_head(input, pos))->0) == ser_head(
            value(at_head(input, pos)),
        ),
        all_in(Class::Letter, value(at_head(input, pos)).tag),
{
    reveal(head_from);
    let at = pos->0;
    lemma_parse_head_written(input.skip(at));
    let taken = (parse_head(input.skip(at))->0).taken as int;
    assert(input.subrange(at, at + taken) =~= input.skip(at).subrange(0, taken));
}

/// Whether `letter` is a letter of the Latin alphabet.
pub open spec fn is_letter(letter: char) -> bool {
    ('A' <= letter <= 'Z') || ('a' <= letter <= 'z')
}

/// A name of letters is written with one byte for each letter, and each
/// byte belongs to the class of letters.
pub proof fn lemma_name(text: &str)
    requires
        forall|i: int| 0 <= i < text@.len() ==> is_letter(#[trigger] text@[i]),
    ensures
        all_in(Class::Letter, lit(text)),
        lit(text).len() == text@.len(),
        forall|i: int| 0 <= i < text@.len() ==> #[trigger] lit(text)[i] == text@[i] as u8,
{
    reveal(lit);
    assert(is_ascii_chars(text@));
    vstd::utf8::is_ascii_chars_encode_utf8(text@);
    assert forall|i: int| 0 <= i < lit(text).len() implies Class::Letter.holds(
        #[trigger] lit(text)[i],
    ) by {
        assert(is_letter(text@[i]));
        assert(lit(text)[i] == text@[i] as u8);
    }
}

/// Steps over `byte` where `buf` holds it at `pos`: the position behind
/// it, or `None` where another byte or none stands there.
pub fn next_byte(buf: &[u8], pos: usize, byte: u8) -> (next: Option<usize>)
    ensures
        match next {
            Some(end) => end <= buf.len() && at_bytes(buf@, Some(pos as int), seq![byte]) == Some(
                end as int,
            ),
            None => at_bytes(buf@, Some(pos as int), seq![byte]) is None,
        },
{
    proof {
        reveal(bytes_from);
    }
    let ghost input = buf@.skip(pos as int);
    if pos < buf.len() && buf[pos] == byte {
        assert(input.subrange(0, 1) =~= seq![byte]);
        Some(pos + 1)
    } else {
        proof {
            if starts_with(input, seq![byte]) {
                assert(input.subrange(0, 1)[0] == seq![byte][0]);
            }
        }
        None
    }
}

/// Steps over the bytes of `text` where `buf` holds them at `pos`: the
/// position behind them, or `None` where `buf` goes on otherwise.
pub fn next_literal(buf: &[u8], pos: usize, text: &str) -> (next: Option<usize>)
    ensures
        match next {
            Some(end) => end <= buf.len() && at_bytes(buf@, Some(pos as int), lit(text)) == Some(
                end as int,
            ),
            None => at_bytes(buf@, Some(pos as int), lit(text)) is None,
        },
{
    proof {
        reveal(bytes_from);
    }
    skip_literal(buf, pos, text)
}

/// Reads the text that `buf` holds at `pos`: the text and the position
/// behind it, or `None` where no text stands there.
pub fn next_text(buf: &[u8], pos: usize) -> (taken: Option<(String, usize)>)
    ensures
        match taken {
            Some((text, end)) => end <= buf.len() && at_text(buf@, Some(pos as int)) == Some(
                (text@, end as int),
            ),
            None => at_text(buf@, Some(pos as int)) is None,
        },
{
    proof {
        reveal(text_from);
    }
    take_text(buf, pos)
}

/// Reads the list of texts that `buf` holds at `pos`: the texts and the
/// position behind the list, or `None` where no list stands there.
pub fn next_texts(buf: &[u8], pos: usize) -> (taken: Option<(Vec<String>, usize)>)
    ensures
        match taken {
            Some((items, end)) => end <= buf.len() && at_texts(buf@, Some(pos as int)) == Some(
                (items.deep_view(), end as int),
            ),
            None => at_texts(buf@, Some(pos as int)) is None,
        },
{
    proof {
        reveal(texts_from);
    }
    take_texts(buf, pos)
}

/// Reads the number that `buf` holds at `pos`: the number and the position
/// behind it, or `None` where no number stands there.
pub fn next_number(buf: &[u8], pos: usize) -> (taken: Option<(u64, usize)>)
    ensures
        match taken {
            Some((number, end)) => end <= buf.len() && at_number(buf@, Some(pos as int)) == Some(
                (number, end as int),
            ),
            None => at_number(buf@, Some(pos as int)) is None,
        },
{
    proof {
        reveal(number_from);
    }
    take_number(buf, pos)
}

/// Reads the truth value that `buf` holds at `pos`: the value and the
/// position behind it, or `None` where none stands there.
pub fn next_bool(buf: &[u8], pos: usize) -> (taken: Option<(bool, usize)>)
    ensures
        match taken {
            Some((value, end)) => end <= buf.len() && at_bool(buf@, Some(pos as int)) == Some(
                (value, end as int),
            ),
            None => at_bool(buf@, Some(pos as int)) is None,
        },
{
    proof {
        reveal(bool_from);
    }
    take_bool(buf, pos)
}

/// Reads the beginning of the variant that `buf` holds at `pos`, or `None`
/// where none stands there.
pub fn next_head(buf: &[u8], pos: usize) -> (taken: Option<Variant>)
    ensures
        match taken {
            Some(variant) => variant.start <= variant.end <= variant.next <= buf.len() && at_head(
                buf@,
                Some(pos as int),
            ) == Some((variant.head(buf@, pos as int), variant.next as int)),
            None => at_head(buf@, Some(pos as int)) is None,
        },
{
    proof {
        reveal(head_from);
    }
    take_head(buf, pos)
}

} // verus!
