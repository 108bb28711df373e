//! The pieces that the wire format is built from.
//!
//! A message on the wire is JSON text in one fixed spelling: no white space,
//! the members of an object in one order, a text with the shortest escape
//! for each byte that needs one, a number without sign or leading zeros.
//! Each piece has a function that says how a value is written and a function
//! that says which value, if any, stands at the front of some bytes and how
//! many bytes it takes up.

use vstd::prelude::*;
use vstd::utf8::{decode_utf8, encode_utf8, valid_utf8};

verus! {

/// The bytes of `text`.
#[verifier::opaque]
pub open spec fn lit(text: &str) -> Seq<u8> {
    encode_utf8(text@)
}

/// Whether `input` begins with `prefix`.
pub open spec fn starts_with(input: Seq<u8>, prefix: Seq<u8>) -> bool {
    prefix.len() <= input.len() && input.subrange(0, prefix.len() as int) =~= prefix
}

/// Appends the bytes of `text` to `out`.
pub fn put_literal(out: &mut Vec<u8>, text: &str)
    ensures
        final(out)@ == old(out)@ + lit(text),
{
    let bytes = text.as_bytes();
    proof {
        reveal(lit);
    }
    let mut i: usize = 0;
    while i < bytes.len()
        invariant
            i <= bytes.len(),
            bytes@ == lit(text),
            out@ == old(out)@ + bytes@.subrange(0, i as int),
        decreases bytes.len() - i,
    {
        out.push(bytes[i]);
        i = i + 1;
        assert(out@ =~= old(out)@ + bytes@.subrange(0, i as int));
    }
    assert(bytes@.subrange(0, i as int) =~= bytes@);
}

/// Steps over the bytes of `text` where `buf` holds them at `pos`: the
/// position behind them, or `None` where `buf` goes on otherwise.
pub fn skip_literal(buf: &[u8], pos: usize, text: &str) -> (next: Option<usize>)
    ensures
        next is Some <==> pos <= buf.len() && starts_with(buf@.skip(pos as int), lit(text)),
        next matches Some(end) ==> end == pos + lit(text).len(),
{
    let bytes = text.as_bytes();
    proof {
        reveal(lit);
    }
    if pos > buf.len() || bytes.len() > buf.len() - pos {
        return None;
    }
    let ghost input = buf@.skip(pos as int);
    let mut i: usize = 0;
    while i < bytes.len()
        invariant
            i <= bytes.len(),
            bytes@ == lit(text),
            pos + bytes.len() <= buf.len(),
            input == buf@.skip(pos as int),
            input.subrange(0, i as int) =~= bytes@.subrange(0, i as int),
        decreases bytes.len() - i,
    {
        if buf[pos + i] != bytes[i] {
            assert(input.subrange(0, bytes.len() as int)[i as int] != bytes@[i as int]);
            return None;
        }
        i = i + 1;
        assert(input.subrange(0, i as int) =~= bytes@.subrange(0, i as int)) by {
            assert forall|k: int| 0 <= k < i implies input.subrange(0, i as int)[k]
                == bytes@.subrange(0, i as int)[k] by {
                if k < i - 1 {
                    assert(input.subrange(0, i - 1)[k] == bytes@.subrange(0, i - 1)[k]);
                }
            }
        }
    }
    assert(bytes@.subrange(0, i as int) =~= bytes@);
    Some(pos + bytes.len())
}

/// A class of bytes that a run is made of.
#[derive(Clone, Copy, Debug, PartialEq, Eq, Structural)]
pub enum Class {
    /// The letters of the Latin alphabet, capital and small.
    Letter,
    /// The decimal digits.
    Digit,
}

impl Class {
    /// Whether `byte` belongs to the class.
    pub open spec fn holds(self, byte: u8) -> bool {
        match self {
            Class::Letter => (0x41 <= byte <= 0x5a) || (0x61 <= byte <= 0x7a),
            Class::Digit => 0x30 <= byte <= 0x39,
        }
    }

    /// Whether `byte` belongs to the class.
    pub fn has(self, byte: u8) -> (held: bool)
        ensures
            held == self.holds(byte),
    {
        match self {
            Class::Letter => (0x41 <= byte && byte <= 0x5a) || (0x61 <= byte && byte <= 0x7a),
            Class::Digit => 0x30 <= byte && byte <= 0x39,
        }
    }
}

/// The number of bytes at the front of `input` that belong to `class`.
pub open spec fn run_len(class: Class, input: Seq<u8>) -> nat
    decreases input.len(),
{
    if input.len() > 0 && class.holds(input[0]) {
        1 + run_len(class, input.skip(1))
    } else {
        0
    }
}

/// Whether every byte of `bytes` belongs to `class`.
pub open spec fn all_in(class: Class, bytes: Seq<u8>) -> bool {
    forall|i: int| 0 <= i < bytes.len() ==> class.holds(#[trigger] bytes[i])
}

/// A run ends where the class does: bytes of the class, followed by nothing
/// or by a byte outside it, are a run of exactly their length.
pub proof fn lemma_run_len(class: Class, run: Seq<u8>, rest: Seq<u8>)
    requires
        all_in(class, run),
        rest.len() == 0 || !class.holds(rest[0]),
    ensures
        run_len(class, run + rest) == run.len(),
    decreases run.len(),
{
    if run.len() == 0 {
        assert(run + rest =~= rest);
    } else {
        assert((run + rest)[0] == run[0]);
        assert((run + rest).skip(1) =~= run.skip(1) + rest);
        lemma_run_len(class, run.skip(1), rest);
    }
}

/// The bytes of a run belong to its class, and the run is no longer than
/// the input.
pub proof fn lemma_run_in_class(class: Class, input: Seq<u8>)
    ensures
        run_len(class, input) <= input.len(),
        all_in(class, input.subrange(0, run_len(class, input) as int)),
        run_len(class, input) < input.len() ==> !class.holds(input[run_len(class, input) as int]),
    decreases input.len(),
{
    if input.len() > 0 && class.holds(input[0]) {
        lemma_run_in_class(class, input.skip(1));
        let n = run_len(class, input.skip(1)) as int;
        assert forall|i: int| 0 <= i < n + 1 implies class.holds(
            #[trigger] input.subrange(0, n + 1)[i],
        ) by {
            if i > 0 {
                assert(input.subrange(0, n + 1)[i] == input.skip(1).subrange(0, n)[i - 1]);
            }
        }
        if n + 1 < input.len() {
            assert(input[n + 1] == input.skip(1)[n]);
        }
    }
}

/// The end of the run of `class` that begins at `pos`. Beyond the end of
/// `buf` there is no run, and the end is `pos` itself.
pub fn run_end(buf: &[u8], pos: usize, class: Class) -> (end: usize)
    ensures
        pos <= end,
        pos <= buf.len() ==> end <= buf.len() && end - pos == run_len(
            class,
            buf@.skip(pos as int),
        ),
        pos > buf.len() ==> end == pos,
{
    if pos > buf.len() {
        return pos;
    }
    let mut end: usize = pos;
    while end < buf.len() && class.has(buf[end])
        invariant
            pos <= end <= buf.len(),
            run_len(class, buf@.skip(pos as int)) == (end - pos) + run_len(
                class,
                buf@.skip(end as int),
            ),
        decreases buf.len() - end,
    {
        assert(buf@.skip(end as int).skip(1) =~= buf@.skip(end + 1));
        end = end + 1;
    }
    end
}

/// The byte of the decimal digit `digit`.
pub open spec fn digit_byte(digit: nat) -> u8 {
    (0x30 + digit) as u8
}

/// The digit that `byte` stands for.
pub open spec fn digit_value(byte: u8) -> nat {
    if byte >= 0x30 {
        (byte - 0x30) as nat
    } else {
        0
    }
}

/// How a number is written: in decimal notation, without sign or leading
/// zeros.
pub open spec fn ser_number(number: nat) -> Seq<u8>
    decreases number,
{
    if number < 10 {
        seq![digit_byte(number)]
    } else {
        ser_number(number / 10).push(digit_byte(number % 10))
    }
}

/// The number that the decimal digits `digits` denote.
pub open spec fn digits_value(digits: Seq<u8>) -> nat
    decreases digits.len(),
{
    if digits.len() == 0 {
        0
    } else {
        digits_value(digits.drop_last()) * 10 + digit_value(digits.last())
    }
}

/// The number at the front of `input` and the bytes that it takes up: the
/// run of digits there, unless it is empty, has a leading zero or denotes
/// more than 64 bits hold.
pub open spec fn parse_number(input: Seq<u8>) -> Option<(u64, nat)> {
    let len = run_len(Class::Digit, input);
    let value = digits_value(input.subrange(0, len as int));
    if len == 0 || (len > 1 && input[0] == 0x30) || value > u64::MAX {
        None
    } else {
        Some((value as u64, len))
    }
}

/// What a number is written as: digits that denote it, with no zero in
/// front of another digit.
pub proof fn lemma_ser_number(number: nat)
    ensures
        ser_number(number).len() >= 1,
        all_in(Class::Digit, ser_number(number)),
        digits_value(ser_number(number)) == number,
        ser_number(number).len() > 1 ==> ser_number(number)[0] != 0x30,
        number > 0 ==> ser_number(number)[0] != 0x30,
    decreases number,
{
    if number < 10 {
        assert(seq![digit_byte(number)].drop_last() =~= Seq::<u8>::empty());
        assert(digits_value(Seq::<u8>::empty()) == 0);
    } else {
        lemma_ser_number(number / 10);
        let front = ser_number(number / 10);
        assert(front.push(digit_byte(number % 10)).drop_last() =~= front);
    }
}

/// A number that was written is read back, whatever follows it but a digit.
pub proof fn lemma_parse_number(number: u64, rest: Seq<u8>)
    requires
        rest.len() == 0 || !Class::Digit.holds(rest[0]),
    ensures
        parse_number(ser_number(number as nat) + rest) == Some(
            (number, ser_number(number as nat).len()),
        ),
{
    let written = ser_number(number as nat);
    lemma_ser_number(number as nat);
    lemma_run_len(Class::Digit, written, rest);
    assert((written + rest).subrange(0, written.len() as int) =~= written);
    assert((written + rest)[0] == written[0]);
}

/// A digit more does not make a number smaller: the digits up to `end`
/// denote at most what all `digits` denote.
pub proof fn lemma_digits_value_grows(digits: Seq<u8>, end: int)
    requires
        0 <= end <= digits.len(),
    ensures
        digits_value(digits.subrange(0, end)) <= digits_value(digits),
    decreases digits.len() - end,
{
    if end == digits.len() {
        assert(digits.subrange(0, end) =~= digits);
    } else {
        lemma_digits_value_grows(digits.drop_last(), end);
        assert(digits.drop_last().subrange(0, end) =~= digits.subrange(0, end));
    }
}

/// Digits without a zero in front denote a number above zero.
pub proof fn lemma_digits_value_positive(digits: Seq<u8>)
    requires
        digits.len() >= 1,
        all_in(Class::Digit, digits),
        digits[0] != 0x30,
    ensures
        digits_value(digits) > 0,
    decreases digits.len(),
{
    if digits.len() > 1 {
        lemma_digits_value_positive(digits.drop_last());
    } else {
        assert(digits.drop_last() =~= Seq::<u8>::empty());
    }
}

/// Digits without a needless zero in front are what the number that they
/// denote is written as.
pub proof fn lemma_digits_written(digits: Seq<u8>)
    requires
        digits.len() >= 1,
        all_in(Class::Digit, digits),
        digits.len() > 1 ==> digits[0] != 0x30,
    ensures
        ser_number(digits_value(digits)) == digits,
    decreases digits.len(),
{
    let front = digits.drop_last();
    let last = digits.last();
    assert(Class::Digit.holds(last));
    if digits.len() == 1 {
        assert(front =~= Seq::<u8>::empty());
        assert(digits_value(front) == 0);
        assert(seq![digit_byte(digit_value(last))] =~= digits);
    } else {
        lemma_digits_value_positive(front);
        lemma_digits_written(front);
        let value = digits_value(digits);
        assert(value == digits_value(front) * 10 + digit_value(last));
        assert(value / 10 == digits_value(front));
        assert(value % 10 == digit_value(last));
        assert(ser_number(value) =~= front.push(last));
        assert(front.push(last) =~= digits);
    }
}

/// A number that is read was written so.
pub proof fn lemma_parse_number_written(input: Seq<u8>)
    requires
        parse_number(input) is Some,
    ensures
        (parse_number(input)->0).1 <= input.len(),
        input.subrange(0, (parse_number(input)->0).1 as int) == ser_number(
            (parse_number(input)->0).0 as nat,
        ),
{
    lemma_run_in_class(Class::Digit, input);
    let len = run_len(Class::Digit, input) as int;
    let digits = input.subrange(0, len);
    assert(digits[0] == input[0]);
    lemma_digits_written(digits);
}

/// Appends `number` to `out` as it is written on the wire.
pub fn put_number(out: &mut Vec<u8>, number: u64)
    ensures
        final(out)@ == old(out)@ + ser_number(number as nat),
    decreases number,
{
    if number >= 10 {
        put_number(out, number / 10);
    }
    let digit: u8 = (number % 10) as u8;
    out.push(0x30 + digit);
    assert(out@ =~= old(out)@ + ser_number(number as nat));
}

/// Reads the number that `buf` holds at `pos`: the number and the position
/// behind it, or `None` where no number stands there.
pub fn take_number(buf: &[u8], pos: usize) -> (taken: Option<(u64, usize)>)
    ensures
        match taken {
            Some((number, end)) => pos <= end <= buf.len() && parse_number(buf@.skip(pos as int))
                == Some((number, (end - pos) as nat)),
            None => pos > buf.len() || parse_number(buf@.skip(pos as int)) is None,
        },
{
    if pos > buf.len() {
        return None;
    }
    let end = run_end(buf, pos, Class::Digit);
    let ghost input = buf@.skip(pos as int);
    let ghost digits = input.subrange(0, end - pos);
    if end == pos || (end - pos > 1 && buf[pos] == 0x30) {
        return None;
    }
    proof {
        lemma_run_in_class(Class::Digit, input);
    }
    let mut value: u64 = 0;
    let mut i: usize = pos;
    while i < end
        invariant
            pos <= i <= end <= buf.len(),
            input == buf@.skip(pos as int),
            digits == input.subrange(0, end - pos),
            end - pos == run_len(Class::Digit, input),
            all_in(Class::Digit, digits),
            value == digits_value(digits.subrange(0, i - pos)),
        decreases end - i,
    {
        let byte = buf[i];
        assert(byte == digits[i - pos]);
        let digit: u64 = (byte - 0x30) as u64;
        assert(digits.subrange(0, i - pos + 1).drop_last() =~= digits.subrange(0, i - pos));
        let ghost longer = digits.subrange(0, i - pos + 1);
        assert(longer.last() == byte);
        assert(digits_value(longer) == value * 10 + digit);
        if value > (u64::MAX - digit) / 10 {
            proof {
                lemma_digits_value_grows(digits, i - pos + 1);
                assert(value * 10 + digit > u64::MAX);
            }
            return None;
        }
        value = value * 10 + digit;
        i = i + 1;
    }
    assert(digits.subrange(0, end - pos) =~= digits);
    Some((value, end))
}

/// The byte that opens and closes a text.
pub const QUOTE: u8 = 0x22;

/// The byte that begins an escape.
pub const BACKSLASH: u8 = 0x5c;

/// The letter that stands behind the backslash in the short escape of
/// `byte`, or 0 where `byte` has none.
pub open spec fn short_escape(byte: u8) -> u8 {
    if byte == 0x22 {
        0x22
    } else if byte == 0x5c {
        0x5c
    } else if byte == 0x08 {
        0x62
    } else if byte == 0x09 {
        0x74
    } else if byte == 0x0a {
        0x6e
    } else if byte == 0x0c {
        0x66
    } else if byte == 0x0d {
        0x72
    } else {
        0
    }
}

/// The byte of the hexadecimal digit `digit`, in small letters.
pub open spec fn hex_byte(digit: nat) -> u8 {
    if digit < 10 {
        (0x30 + digit) as u8
    } else {
        (0x57 + digit) as u8
    }
}

/// How one byte of a text is written: the quote, the backslash and the
/// control bytes escaped, with the short escape where there is one and the
/// escape by number elsewhere, every other byte as it is.
pub open spec fn escape_byte(byte: u8) -> Seq<u8> {
    if short_escape(byte) != 0 {
        seq![BACKSLASH, short_escape(byte)]
    } else if byte < 0x20 {
        seq![
            BACKSLASH,
            0x75,
            0x30,
            0x30,
            hex_byte((byte / 16) as nat),
            hex_byte((byte % 16) as nat),
        ]
    } else {
        seq![byte]
    }
}

/// How the bytes of a text are written between its quotes.
pub open spec fn escape(bytes: Seq<u8>) -> Seq<u8>
    decreases bytes.len(),
{
    if bytes.len() == 0 {
        seq![]
    } else {
        escape_byte(bytes[0]) + escape(bytes.skip(1))
    }
}

/// How a text is written: its bytes in UTF-8, escaped, between quotes.
pub open spec fn ser_text(text: Seq<char>) -> Seq<u8> {
    seq![QUOTE] + (escape(encode_utf8(text)) + seq![QUOTE])
}

/// The byte that the escape with the letter `letter` stands for, or `None`
/// where no short escape has that letter.
pub open spec fn short_escaped(letter: u8) -> Option<u8> {
    if letter == 0x22 {
        Some(0x22u8)
    } else if letter == 0x5c {
        Some(0x5cu8)
    } else if letter == 0x62 {
        Some(0x08u8)
    } else if letter == 0x74 {
        Some(0x09u8)
    } else if letter == 0x6e {
        Some(0x0au8)
    } else if letter == 0x66 {
        Some(0x0cu8)
    } else if letter == 0x72 {
        Some(0x0du8)
    } else {
        None
    }
}

/// The digit that the hexadecimal digit `byte` stands for, or `None` where
/// `byte` is no such digit in small letters.
pub open spec fn hex_value(byte: u8) -> Option<u8> {
    if 0x30 <= byte <= 0x39 {
        Some((byte - 0x30) as u8)
    } else if 0x61 <= byte <= 0x66 {
        Some((byte - 0x57) as u8)
    } else {
        None
    }
}

/// The byte that an escape by number with the digits `high` and `low`
/// stands for.
pub open spec fn numbered(high: u8, low: u8) -> u8 {
    ((high - 0x30) * 16 + hex_value(low)->0) as u8
}

/// The byte of a text that stands at the front of `input`, which is inside
/// the quotes of a text, and the bytes that it takes up. A byte stands for
/// itself unless it is a quote, a backslash or a control byte. An escape is
/// a short one, or one by number of a control byte that has no short one.
pub open spec fn unescape_first(input: Seq<u8>) -> Option<(u8, nat)> {
    if input.len() == 0 {
        None
    } else if input[0] == BACKSLASH {
        if input.len() >= 2 && short_escaped(input[1]) is Some {
            Some((short_escaped(input[1])->0, 2))
        } else if input.len() >= 6 && input[1] == 0x75 && input[2] == 0x30 && input[3] == 0x30 && (
        input[4] == 0x30 || input[4] == 0x31) && hex_value(input[5]) is Some && short_escape(
            numbered(input[4], input[5]),
        ) == 0 {
            Some((numbered(input[4], input[5]), 6))
        } else {
            None
        }
    } else if input[0] < 0x20 || input[0] == QUOTE {
        None
    } else {
        Some((input[0], 1))
    }
}

/// The bytes of the text that `input` holds up to the closing quote, and the
/// bytes that they take up, the quote included.
pub open spec fn unescape(input: Seq<u8>) -> Option<(Seq<u8>, nat)>
    decreases input.len(),
{
    if input.len() == 0 {
        None
    } else if input[0] == QUOTE {
        Some((seq![], 1))
    } else {
        match unescape_first(input) {
            Some((byte, taken)) => {
                if 0 < taken <= input.len() {
                    match unescape(input.skip(taken as int)) {
                        Some((bytes, more)) => Some((seq![byte] + bytes, taken + more)),
                        None => None,
                    }
                } else {
                    None
                }
            },
            None => None,
        }
    }
}

/// The text at the front of `input` and the bytes that it takes up: what
/// stands between the quotes, where that is valid UTF-8.
#[verifier::opaque]
pub open spec fn parse_text(input: Seq<u8>) -> Option<(Seq<char>, nat)> {
    if input.len() > 0 && input[0] == QUOTE {
        match unescape(input.skip(1)) {
            Some((bytes, taken)) => if valid_utf8(bytes) {
                Some((decode_utf8(bytes), taken + 1))
            } else {
                None
            },
            None => None,
        }
    } else {
        None
    }
}

/// Writing bytes one after the other is writing them together.
pub proof fn lemma_escape_push(bytes: Seq<u8>, byte: u8)
    ensures
        escape(bytes.push(byte)) == escape(bytes) + escape_byte(byte),
    decreases bytes.len(),
{
    if bytes.len() == 0 {
        assert(bytes.push(byte).skip(1) =~= Seq::<u8>::empty());
        assert(escape(bytes.push(byte)) =~= escape_byte(byte) + escape(Seq::<u8>::empty()));
        assert(escape(bytes) + escape_byte(byte) =~= escape_byte(byte));
        assert(escape_byte(byte) + escape(Seq::<u8>::empty()) =~= escape_byte(byte));
    } else {
        assert(bytes.push(byte).skip(1) =~= bytes.skip(1).push(byte));
        lemma_escape_push(bytes.skip(1), byte);
        assert(escape(bytes.push(byte)) =~= escape(bytes) + escape_byte(byte));
    }
}

/// A byte that was written is read back, whatever follows it.
pub proof fn lemma_unescape_first(byte: u8, rest: Seq<u8>)
    ensures
        unescape_first(escape_byte(byte) + rest) == Some((byte, escape_byte(byte).len())),
        (escape_byte(byte) + rest)[0] != QUOTE,
        escape_byte(byte).len() > 0,
{
    let input = escape_byte(byte) + rest;
    if short_escape(byte) != 0 {
        assert(input[0] == BACKSLASH);
        assert(input[1] == short_escape(byte));
    } else if byte < 0x20 {
        assert(input[0] == BACKSLASH);
        assert(input[1] == 0x75);
        assert(input[2] == 0x30);
        assert(input[3] == 0x30);
        assert(input[4] == hex_byte((byte / 16) as nat));
        assert(input[5] == hex_byte((byte % 16) as nat));
        assert(short_escaped(0x75) is None);
    } else {
        assert(input[0] == byte);
    }
}

/// The bytes of a text that were written are read back up to the closing
/// quote, whatever follows it.
pub proof fn lemma_unescape(bytes: Seq<u8>, rest: Seq<u8>)
    ensures
        unescape(escape(bytes) + (seq![QUOTE] + rest)) == Some((bytes, escape(bytes).len() + 1)),
    decreases bytes.len(),
{
    let tail = seq![QUOTE] + rest;
    if bytes.len() == 0 {
        assert(escape(bytes) + tail =~= tail);
        assert(tail[0] == QUOTE);
    } else {
        let first = escape_byte(bytes[0]);
        let after = escape(bytes.skip(1)) + tail;
        assert(escape(bytes) + tail =~= first + after);
        lemma_unescape_first(bytes[0], after);
        assert((first + after).skip(first.len() as int) =~= after);
        lemma_unescape(bytes.skip(1), rest);
        assert(seq![bytes[0]] + bytes.skip(1) =~= bytes);
    }
}

/// A text that was written is read back, whatever follows it.
pub proof fn lemma_parse_text(text: Seq<char>, rest: Seq<u8>)
    ensures
        parse_text(ser_text(text) + rest) == Some((text, ser_text(text).len())),
{
    reveal(parse_text);
    let bytes = encode_utf8(text);
    let input = ser_text(text) + rest;
    assert(input[0] == QUOTE);
    assert(input.skip(1) =~= escape(bytes) + (seq![QUOTE] + rest));
    lemma_unescape(bytes, rest);
    vstd::utf8::encode_utf8_valid_utf8(text);
    vstd::utf8::encode_utf8_decode_utf8(text);
}

/// A byte of a text that is read was written so: the bytes that it takes
/// up are those that it is written as.
pub proof fn lemma_unescape_first_written(input: Seq<u8>)
    requires
        unescape_first(input) is Some,
    ensures
        (unescape_first(input)->0).1 <= input.len(),
        input.subrange(0, (unescape_first(input)->0).1 as int) == escape_byte(
            (unescape_first(input)->0).0,
        ),
{
    let byte = (unescape_first(input)->0).0;
    let taken = (unescape_first(input)->0).1 as int;
    assert(input.subrange(0, taken) =~= escape_byte(byte));
}

/// The bytes of a text that are read were written so, up to the closing
/// quote.
pub proof fn lemma_unescape_written(input: Seq<u8>)
    requires
        unescape(input) is Some,
    ensures
        (unescape(input)->0).1 <= input.len(),
        input.subrange(0, (unescape(input)->0).1 as int) == escape((unescape(input)->0).0)
            + seq![QUOTE],
    decreases input.len(),
{
    let bytes = (unescape(input)->0).0;
    let taken = (unescape(input)->0).1 as int;
    if input[0] == QUOTE {
        assert(input.subrange(0, 1) =~= escape(bytes) + seq![QUOTE]);
    } else {
        let first = (unescape_first(input)->0).0;
        let step = (unescape_first(input)->0).1 as int;
        let rest = input.skip(step);
        lemma_unescape_first_written(input);
        lemma_unescape_written(rest);
        let more = (unescape(rest)->0).1 as int;
        assert(bytes =~= seq![first] + (unescape(rest)->0).0);
        assert(bytes[0] == first);
        assert(bytes.skip(1) =~= (unescape(rest)->0).0);
        assert(input.subrange(0, taken) =~= input.subrange(0, step) + rest.subrange(0, more));
        assert(escape(bytes) + seq![QUOTE] =~= escape_byte(first) + (escape(bytes.skip(1))
            + seq![QUOTE]));
    }
}

/// A text that is read was written so.
pub proof fn lemma_parse_text_written(input: Seq<u8>)
    requires
        parse_text(input) is Some,
    ensures
        (parse_text(input)->0).1 <= input.len(),
        input.subrange(0, (parse_text(input)->0).1 as int) == ser_text((parse_text(input)->0).0),
{
    reveal(parse_text);
    let inside = input.skip(1);
    lemma_unescape_written(inside);
    let bytes = (unescape(inside)->0).0;
    let taken = (unescape(inside)->0).1 as int;
    vstd::utf8::decode_utf8_encode_utf8(bytes);
    assert(input.subrange(0, taken + 1) =~= seq![QUOTE] + inside.subrange(0, taken));
    assert(seq![QUOTE] + (escape(bytes) + seq![QUOTE]) =~= seq![QUOTE] + inside.subrange(
        0,
        taken,
    ));
}

/// Builds a text from its bytes in UTF-8.
///
/// Calls `String::from_utf8`, which hands the text back where the bytes are
/// valid UTF-8 and fails where they are not. The text is then the characters
/// that the bytes encode.
#[verifier::external_body]
fn text_from_utf8(bytes: Vec<u8>) -> (text: Option<String>)
    ensures
        text is Some <==> valid_utf8(bytes@),
        text matches Some(decoded) ==> decoded@ == decode_utf8(bytes@),
{
    String::from_utf8(bytes).ok()
}

fn hex_digit(digit: u8) -> (byte: u8)
    requires
        digit < 16,
    ensures
        byte == hex_byte(digit as nat),
{
    if digit < 10 {
        0x30 + digit
    } else {
        0x57 + digit
    }
}

fn put_escaped(out: &mut Vec<u8>, byte: u8)
    ensures
        final(out)@ == old(out)@ + escape_byte(byte),
{
    let short: u8 = if byte == 0x22 {
        0x22
    } else if byte == 0x5c {
        0x5c
    } else if byte == 0x08 {
        0x62
    } else if byte == 0x09 {
        0x74
    } else if byte == 0x0a {
        0x6e
    } else if byte == 0x0c {
        0x66
    } else if byte == 0x0d {
        0x72
    } else {
        0
    };
    if short != 0 {
        out.push(BACKSLASH);
        out.push(short);
    } else if byte < 0x20 {
        out.push(BACKSLASH);
        out.push(0x75);
        out.push(0x30);
        out.push(0x30);
        out.push(hex_digit(byte / 16));
        out.push(hex_digit(byte % 16));
    } else {
        out.push(byte);
    }
    assert(out@ =~= old(out)@ + escape_byte(byte));
}

/// Appends `text` to `out` as it is written on the wire.
pub fn put_text(out: &mut Vec<u8>, text: &str)
    ensures
        final(out)@ == old(out)@ + ser_text(text@),
{
    let bytes = text.as_bytes();
    out.push(QUOTE);
    let mut i: usize = 0;
    while i < bytes.len()
        invariant
            i <= bytes.len(),
            bytes@ == encode_utf8(text@),
            out@ == old(out)@ + (seq![QUOTE] + escape(bytes@.subrange(0, i as int))),
        decreases bytes.len() - i,
    {
        proof {
            lemma_escape_push(bytes@.subrange(0, i as int), bytes@[i as int]);
            assert(bytes@.subrange(0, i as int).push(bytes@[i as int]) =~= bytes@.subrange(
                0,
                i + 1,
            ));
        }
        put_escaped(out, bytes[i]);
        i = i + 1;
        assert(out@ =~= old(out)@ + (seq![QUOTE] + escape(bytes@.subrange(0, i as int))));
    }
    out.push(QUOTE);
    assert(bytes@.subrange(0, i as int) =~= bytes@);
    assert(out@ =~= old(out)@ + ser_text(text@));
}

fn take_escaped(buf: &[u8], pos: usize) -> (taken: Option<(u8, usize)>)
    requires
        pos <= buf.len(),
    ensures
        match taken {
            Some((byte, end)) => pos < end <= buf.len() && unescape_first(buf@.skip(pos as int))
                == Some((byte, (end - pos) as nat)),
            None => unescape_first(buf@.skip(pos as int)) is None,
        },
{
    let left = buf.len() - pos;
    if left == 0 {
        return None;
    }
    let first = buf[pos];
    if first == BACKSLASH {
        if left < 2 {
            return None;
        }
        let letter = buf[pos + 1];
        let short: Option<u8> = if letter == 0x22 {
            Some(0x22)
        } else if letter == 0x5c {
            Some(0x5c)
        } else if letter == 0x62 {
            Some(0x08)
        } else if letter == 0x74 {
            Some(0x09)
        } else if letter == 0x6e {
            Some(0x0a)
        } else if letter == 0x66 {
            Some(0x0c)
        } else if letter == 0x72 {
            Some(0x0d)
        } else {
            None
        };
        match short {
            Some(byte) => Some((byte, pos + 2)),
            None => {
                if left >= 6 && letter == 0x75 && buf[pos + 2] == 0x30 && buf[pos + 3] == 0x30 && (
                buf[pos + 4] == 0x30 || buf[pos + 4] == 0x31) {
                    let high = buf[pos + 4] - 0x30;
                    let low_byte = buf[pos + 5];
                    let low: Option<u8> = if 0x30 <= low_byte && low_byte <= 0x39 {
                        Some(low_byte - 0x30)
                    } else if 0x61 <= low_byte && low_byte <= 0x66 {
                        Some(low_byte - 0x57)
                    } else {
                        None
                    };
                    match low {
                        Some(low) => {
                            let byte = high * 16 + low;
                            if byte == 0x08 || byte == 0x09 || byte == 0x0a || byte == 0x0c || byte
                                == 0x0d {
                                None
                            } else {
                                Some((byte, pos + 6))
                            }
                        },
                        None => None,
                    }
                } else {
                    None
                }
            },
        }
    } else if first < 0x20 || first == QUOTE {
        None
    } else {
        Some((first, pos + 1))
    }
}

/// With the bytes `front` and `taken` bytes of input behind it, what the
/// rest of a text comes to.
pub open spec fn unescape_after(front: Seq<u8>, taken: nat, rest: Option<(Seq<u8>, nat)>) -> Option<
    (Seq<u8>, nat),
> {
    match rest {
        Some((bytes, more)) => Some((front + bytes, taken + more)),
        None => None,
    }
}

/// Reads the text that `buf` holds at `pos`: the text and the position
/// behind it, or `None` where no text stands there.
pub fn take_text(buf: &[u8], pos: usize) -> (taken: Option<(String, usize)>)
    ensures
        match taken {
            Some((text, end)) => pos <= end <= buf.len() && parse_text(buf@.skip(pos as int))
                == Some((text@, (end - pos) as nat)),
            None => pos > buf.len() || parse_text(buf@.skip(pos as int)) is None,
        },
{
    if pos > buf.len() {
        return None;
    }
    proof {
        reveal(parse_text);
    }
    if pos >= buf.len() || buf[pos] != QUOTE {
        return None;
    }
    let ghost inside = buf@.skip(pos + 1);
    assert(buf@.skip(pos as int).skip(1) =~= inside);
    let mut bytes: Vec<u8> = Vec::new();
    let mut i: usize = pos + 1;
    assert(unescape_after(bytes@, 0, unescape(inside)) =~= unescape(inside)) by {
        match unescape(inside) {
            Some((rest, more)) => {
                assert(bytes@ + rest =~= rest);
            },
            None => {},
        }
    }
    loop
        invariant
            pos < i <= buf.len(),
            buf@[pos as int] == QUOTE,
            inside == buf@.skip(pos + 1),
            buf@.skip(pos as int).skip(1) == inside,
            unescape(inside) == unescape_after(
                bytes@,
                (i - pos - 1) as nat,
                unescape(buf@.skip(i as int)),
            ),
        ensures
            i < buf.len(),
            buf@[i as int] == QUOTE,
        decreases buf.len() - i,
    {
        proof {
            reveal(parse_text);
        }
        if i >= buf.len() {
            return None;
        }
        if buf[i] == QUOTE {
            break ;
        }
        let ghost here = buf@.skip(i as int);
        match take_escaped(buf, i) {
            None => {
                return None;
            },
            Some((byte, next)) => {
                proof {
                    assert(here.skip(next - i) =~= buf@.skip(next as int));
                    match unescape(buf@.skip(next as int)) {
                        Some((rest, more)) => {
                            assert(bytes@ + (seq![byte] + rest) =~= bytes@.push(byte) + rest);
                        },
                        None => {},
                    }
                }
                bytes.push(byte);
                i = next;
            },
        }
    }
    let ghost content = bytes@;
    assert(unescape(inside) == Some((content, (i - pos) as nat))) by {
        assert(content + Seq::<u8>::empty() =~= content);
    }
    match text_from_utf8(bytes) {
        Some(text) => Some((text, i + 1)),
        None => None,
    }
}

/// How a truth value is written: `true` or `false`.
pub open spec fn ser_bool(value: bool) -> Seq<u8> {
    if value {
        seq![0x74u8, 0x72, 0x75, 0x65]
    } else {
        seq![0x66u8, 0x61, 0x6c, 0x73, 0x65]
    }
}

/// The truth value at the front of `input` and the bytes that it takes up.
pub open spec fn parse_bool(input: Seq<u8>) -> Option<(bool, nat)> {
    if starts_with(input, ser_bool(true)) {
        Some((true, 4))
    } else if starts_with(input, ser_bool(false)) {
        Some((false, 5))
    } else {
        None
    }
}

/// A truth value that was written is read back, whatever follows it.
pub proof fn lemma_parse_bool(value: bool, rest: Seq<u8>)
    ensures
        parse_bool(ser_bool(value) + rest) == Some((value, ser_bool(value).len())),
{
    let input = ser_bool(value) + rest;
    assert(input.subrange(0, ser_bool(value).len() as int) =~= ser_bool(value));
    if !value {
        assert(input[0] == 0x66);
        if starts_with(input, ser_bool(true)) {
            assert(input.subrange(0, 4)[0] == ser_bool(true)[0]);
        }
    }
}

/// A truth value that is read was written so.
pub proof fn lemma_parse_bool_written(input: Seq<u8>)
    requires
        parse_bool(input) is Some,
    ensures
        (parse_bool(input)->0).1 <= input.len(),
        input.subrange(0, (parse_bool(input)->0).1 as int) == ser_bool((parse_bool(input)->0).0),
{
}

/// Appends `value` to `out` as it is written on the wire.
pub fn put_bool(out: &mut Vec<u8>, value: bool)
    ensures
        final(out)@ == old(out)@ + ser_bool(value),
{
    if value {
        out.push(0x74);
        out.push(0x72);
        out.push(0x75);
        out.push(0x65);
    } else {
        out.push(0x66);
        out.push(0x61);
        out.push(0x6c);
        out.push(0x73);
        out.push(0x65);
    }
    assert(out@ =~= old(out)@ + ser_bool(value));
}

/// Reads the truth value that `buf` holds at `pos`: the value and the
/// position behind it, or `None` where none stands there.
pub fn take_bool(buf: &[u8], pos: usize) -> (taken: Option<(bool, usize)>)
    ensures
        match taken {
            Some((value, end)) => pos <= end <= buf.len() && parse_bool(buf@.skip(pos as int))
                == Some((value, (end - pos) as nat)),
            None => pos > buf.len() || parse_bool(buf@.skip(pos as int)) is None,
        },
{
    if pos > buf.len() {
        return None;
    }
    let left = buf.len() - pos;
    let ghost input = buf@.skip(pos as int);
    if left >= 4 && buf[pos] == 0x74 && buf[pos + 1] == 0x72 && buf[pos + 2] == 0x75 && buf[pos
        + 3] == 0x65 {
        assert(input.subrange(0, 4) =~= ser_bool(true));
        Some((true, pos + 4))
    } else if left >= 5 && buf[pos] == 0x66 && buf[pos + 1] == 0x61 && buf[pos + 2] == 0x6c
        && buf[pos + 3] == 0x73 && buf[pos + 4] == 0x65 {
        assert(input.subrange(0, 5) =~= ser_bool(false));
        assert(!starts_with(input, ser_bool(true))) by {
            if starts_with(input, ser_bool(true)) {
                assert(input.subrange(0, 4)[0] == ser_bool(true)[0]);
            }
        }
        Some((false, pos + 5))
    } else {
        assert(!starts_with(input, ser_bool(true))) by {
            if starts_with(input, ser_bool(true)) {
                assert(input.subrange(0, 4)[0] == ser_bool(true)[0]);
                assert(input.subrange(0, 4)[1] == ser_bool(true)[1]);
                assert(input.subrange(0, 4)[2] == ser_bool(true)[2]);
                assert(input.subrange(0, 4)[3] == ser_bool(true)[3]);
            }
        }
        assert(!starts_with(input, ser_bool(false))) by {
            if starts_with(input, ser_bool(false)) {
                assert(input.subrange(0, 5)[0] == ser_bool(false)[0]);
                assert(input.subrange(0, 5)[1] == ser_bool(false)[1]);
                assert(input.subrange(0, 5)[2] == ser_bool(false)[2]);
                assert(input.subrange(0, 5)[3] == ser_bool(false)[3]);
                assert(input.subrange(0, 5)[4] == ser_bool(false)[4]);
            }
        }
        None
    }
}

/// The byte that opens a list.
pub const LIST_OPEN: u8 = 0x5b;

/// The byte that closes a list.
pub const LIST_CLOSE: u8 = 0x5d;

/// The byte between two items of a list.
pub const COMMA: u8 = 0x2c;

/// How a list goes on behind an item: each further item behind a comma,
/// then the closing bracket.
pub open spec fn ser_more(items: Seq<Seq<char>>) -> Seq<u8>
    decreases items.len(),
{
    if items.len() == 0 {
        seq![LIST_CLOSE]
    } else {
        seq![COMMA] + (ser_text(items[0]) + ser_more(items.skip(1)))
    }
}

/// How a list of texts is written: the texts between brackets, with a comma
/// between each two.
pub open spec fn ser_texts(items: Seq<Seq<char>>) -> Seq<u8> {
    if items.len() == 0 {
        seq![LIST_OPEN, LIST_CLOSE]
    } else {
        seq![LIST_OPEN] + (ser_text(items[0]) + ser_more(items.skip(1)))
    }
}

/// With the items `front` and `taken` bytes of input behind it, what the
/// rest of a list comes to.
pub open spec fn texts_after(
    front: Seq<Seq<char>>,
    taken: nat,
    rest: Option<(Seq<Seq<char>>, nat)>,
) -> Option<(Seq<Seq<char>>, nat)> {
    match rest {
        Some((items, more)) => Some((front + items, taken + more)),
        None => None,
    }
}

/// The items with which a list goes on at the front of `input`, behind an
/// item, and the bytes that they take up, the closing bracket included.
pub open spec fn parse_more(input: Seq<u8>) -> Option<(Seq<Seq<char>>, nat)>
    decreases input.len(),
{
    if input.len() == 0 {
        None
    } else if input[0] == LIST_CLOSE {
        Some((seq![], 1))
    } else if input[0] == COMMA {
        match parse_text(input.skip(1)) {
            Some((text, taken)) => {
                if 1 + taken <= input.len() {
                    texts_after(seq![text], 1 + taken, parse_more(input.skip((1 + taken) as int)))
                } else {
                    None
                }
            },
            None => None,
        }
    } else {
        None
    }
}

/// The list of texts at the front of `input` and the bytes that it takes
/// up.
pub open spec fn parse_texts(input: Seq<u8>) -> Option<(Seq<Seq<char>>, nat)> {
    if input.len() < 2 || input[0] != LIST_OPEN {
        None
    } else if input[1] == LIST_CLOSE {
        Some((seq![], 2))
    } else {
        match parse_text(input.skip(1)) {
            Some((text, taken)) => {
                if 1 + taken <= input.len() {
                    texts_after(seq![text], 1 + taken, parse_more(input.skip((1 + taken) as int)))
                } else {
                    None
                }
            },
            None => None,
        }
    }
}

/// What was written behind an item of a list is read back, whatever follows
/// it.
pub proof fn lemma_parse_more(items: Seq<Seq<char>>, rest: Seq<u8>)
    ensures
        parse_more(ser_more(items) + rest) == Some((items, ser_more(items).len())),
    decreases items.len(),
{
    let input = ser_more(items) + rest;
    if items.len() == 0 {
        assert(input[0] == LIST_CLOSE);
    } else {
        let text = ser_text(items[0]);
        let after = ser_more(items.skip(1)) + rest;
        assert(input[0] == COMMA);
        assert(input.skip(1) =~= text + after);
        lemma_parse_text(items[0], after);
        assert(input.skip((1 + text.len()) as int) =~= after);
        lemma_parse_more(items.skip(1), rest);
        assert(seq![items[0]] + items.skip(1) =~= items);
    }
}

/// A list of texts that was written is read back, whatever follows it.
pub proof fn lemma_parse_texts(items: Seq<Seq<char>>, rest: Seq<u8>)
    ensures
        parse_texts(ser_texts(items) + rest) == Some((items, ser_texts(items).len())),
{
    let input = ser_texts(items) + rest;
    assert(input[0] == LIST_OPEN);
    if items.len() == 0 {
        assert(input[1] == LIST_CLOSE);
        assert(items =~= Seq::<Seq<char>>::empty());
    } else {
        let text = ser_text(items[0]);
        let after = ser_more(items.skip(1)) + rest;
        assert(input.skip(1) =~= text + after);
        assert(input[1] == text[0]);
        lemma_parse_text(items[0], after);
        assert(input.skip((1 + text.len()) as int) =~= after);
        lemma_parse_more(items.skip(1), rest);
        assert(seq![items[0]] + items.skip(1) =~= items);
    }
}

/// What is read behind an item of a list was written so.
pub proof fn lemma_parse_more_written(input: Seq<u8>)
    requires
        parse_more(input) is Some,
    ensures
        (parse_more(input)->0).1 <= input.len(),
        input.subrange(0, (parse_more(input)->0).1 as int) == ser_more((parse_more(input)->0).0),
    decreases input.len(),
{
    let items = (parse_more(input)->0).0;
    let taken = (parse_more(input)->0).1 as int;
    if input[0] == LIST_CLOSE {
        assert(input.subrange(0, 1) =~= ser_more(items));
    } else {
        let inside = input.skip(1);
        lemma_parse_text_written(inside);
        let text = (parse_text(inside)->0).0;
        let step = (parse_text(inside)->0).1 as int;
        let rest = input.skip(1 + step);
        lemma_parse_more_written(rest);
        let more = (parse_more(rest)->0).1 as int;
        assert(items =~= seq![text] + (parse_more(rest)->0).0);
        assert(items[0] == text);
        assert(items.skip(1) =~= (parse_more(rest)->0).0);
        assert(input.subrange(0, taken) =~= seq![COMMA] + (inside.subrange(0, step)
            + rest.subrange(0, more)));
    }
}

/// A list of texts that is read was written so.
pub proof fn lemma_parse_texts_written(input: Seq<u8>)
    requires
        parse_texts(input) is Some,
    ensures
        (parse_texts(input)->0).1 <= input.len(),
        input.subrange(0, (parse_texts(input)->0).1 as int) == ser_texts(
            (parse_texts(input)->0).0,
        ),
{
    let items = (parse_texts(input)->0).0;
    let taken = (parse_texts(input)->0).1 as int;
    if input[1] == LIST_CLOSE {
        assert(input.subrange(0, 2) =~= ser_texts(items));
    } else {
        let inside = input.skip(1);
        lemma_parse_text_written(inside);
        let text = (parse_text(inside)->0).0;
        let step = (parse_text(inside)->0).1 as int;
        let rest = input.skip(1 + step);
        lemma_parse_more_written(rest);
        let more = (parse_more(rest)->0).1 as int;
        assert(items =~= seq![text] + (parse_more(rest)->0).0);
        assert(items[0] == text);
        assert(items.skip(1) =~= (parse_more(rest)->0).0);
        assert(input.subrange(0, taken) =~= seq![LIST_OPEN] + (inside.subrange(0, step)
            + rest.subrange(0, more)));
    }
}

/// Appends the list `items` to `out` as it is written on the wire.
pub fn put_texts(out: &mut Vec<u8>, items: &Vec<String>)
    ensures
        final(out)@ == old(out)@ + ser_texts(items.deep_view()),
{
    let ghost all = items.deep_view();
    out.push(LIST_OPEN);
    if items.len() == 0 {
        out.push(LIST_CLOSE);
        assert(out@ =~= old(out)@ + ser_texts(all));
        return ;
    }
    put_text(out, items[0].as_str());
    assert(out@ + ser_more(all.skip(1)) =~= old(out)@ + ser_texts(all));
    let mut i: usize = 1;
    while i < items.len()
        invariant
            1 <= i <= items.len(),
            all == items.deep_view(),
            out@ + ser_more(all.skip(i as int)) == old(out)@ + ser_texts(all),
        decreases items.len() - i,
    {
        let ghost before = out@;
        out.push(COMMA);
        put_text(out, items[i].as_str());
        proof {
            assert(all.skip(i as int)[0] == items[i as int]@);
            assert(all.skip(i as int).skip(1) =~= all.skip(i + 1));
            assert(out@ + ser_more(all.skip(i + 1)) =~= before + ser_more(all.skip(i as int)));
        }
        i = i + 1;
    }
    let ghost before = out@;
    out.push(LIST_CLOSE);
    assert(all.skip(i as int).len() == 0);
    assert(out@ =~= before + ser_more(all.skip(i as int)));
}

/// A list goes on with a comma and a text: behind them stands the rest.
pub proof fn lemma_more_step(input: Seq<u8>, text: Seq<char>, taken: nat)
    requires
        input.len() > 0,
        input[0] == COMMA,
        parse_text(input.skip(1)) == Some((text, taken)),
        1 + taken <= input.len(),
    ensures
        parse_more(input) == texts_after(
            seq![text],
            1 + taken,
            parse_more(input.skip((1 + taken) as int)),
        ),
{
}

/// Items that were read and the rest of the list make up the list.
pub proof fn lemma_texts_after(
    front: Seq<Seq<char>>,
    taken: nat,
    text: Seq<char>,
    more: nat,
    rest: Option<(Seq<Seq<char>>, nat)>,
)
    ensures
        texts_after(front, taken, texts_after(seq![text], more, rest)) == texts_after(
            front.push(text),
            taken + more,
            rest,
        ),
{
    match rest {
        Some((items, end)) => {
            assert(front + (seq![text] + items) =~= front.push(text) + items);
        },
        None => {},
    }
}

/// Reads the list of texts that `buf` holds at `pos`: the texts and the
/// position behind the list, or `None` where no list stands there.
pub fn take_texts(buf: &[u8], pos: usize) -> (taken: Option<(Vec<String>, usize)>)
    ensures
        match taken {
            Some((items, end)) => pos <= end <= buf.len() && parse_texts(buf@.skip(pos as int))
                == Some((items.deep_view(), (end - pos) as nat)),
            None => pos > buf.len() || parse_texts(buf@.skip(pos as int)) is None,
        },
{
    if pos > buf.len() {
        return None;
    }
    let ghost input = buf@.skip(pos as int);
    if buf.len() - pos < 2 || buf[pos] != LIST_OPEN {
        return None;
    }
    let mut items: Vec<String> = Vec::new();
    if buf[pos + 1] == LIST_CLOSE {
        assert(items.deep_view() =~= Seq::<Seq<char>>::empty());
        return Some((items, pos + 2));
    }
    assert(input.skip(1) =~= buf@.skip(pos + 1));
    let mut i: usize = match take_text(buf, pos + 1) {
        Some((text, next)) => {
            assert(input.skip((1 + (next - pos - 1)) as int) =~= buf@.skip(next as int));
            items.push(text);
            next
        },
        None => {
            return None;
        },
    };
    assert(items.deep_view() =~= seq![items[0]@]);
    loop
        invariant
            pos < i <= buf.len(),
            parse_texts(buf@.skip(pos as int)) == texts_after(
                items.deep_view(),
                (i - pos) as nat,
                parse_more(buf@.skip(i as int)),
            ),
        decreases buf.len() - i,
    {
        let ghost here = buf@.skip(i as int);
        let ghost front = items.deep_view();
        if i >= buf.len() {
            return None;
        }
        if buf[i] == LIST_CLOSE {
            assert(front + Seq::<Seq<char>>::empty() =~= front);
            return Some((items, i + 1));
        }
        if buf[i] != COMMA {
            return None;
        }
        assert(here.skip(1) =~= buf@.skip(i + 1));
        match take_text(buf, i + 1) {
            Some((text, next)) => {
                proof {
                    let taken = (next - i - 1) as nat;
                    assert(here.skip((1 + taken) as int) =~= buf@.skip(next as int));
                    lemma_more_step(here, text@, taken);
                    lemma_texts_after(
                        front,
                        (i - pos) as nat,
                        text@,
                        1 + taken,
                        parse_more(buf@.skip(next as int)),
                    );
                }
                items.push(text);
                assert(items.deep_view() =~= front.push(text@));
                i = next;
            },
            None => {
                return None;
            },
        }
    }
}

/// The byte that opens an object.
pub const OBJECT_OPEN: u8 = 0x7b;

/// The byte that closes an object.
pub const OBJECT_CLOSE: u8 = 0x7d;

/// The byte between the name of a member and its value.
pub const COLON: u8 = 0x3a;

/// How a variant that carries nothing is written: its name as a text.
pub open spec fn ser_unit(tag: Seq<u8>) -> Seq<u8> {
    seq![QUOTE] + (tag + seq![QUOTE])
}

/// How a variant that carries something begins: an object is opened whose
/// one member has the variant's name. What the variant carries follows, and
/// the byte that closes the object.
pub open spec fn ser_open(tag: Seq<u8>) -> Seq<u8> {
    seq![OBJECT_OPEN, QUOTE] + (tag + seq![QUOTE, COLON])
}

/// The beginning of a variant: whether it carries something, its name, and
/// the bytes that the beginning takes up.
pub ghost struct Head {
    pub tagged: bool,
    pub tag: Seq<u8>,
    pub taken: nat,
}

/// The beginning of the variant at the front of `input`. The name is the
/// run of letters behind the opening quote. It ends at a quote, behind which
/// a variant that carries something has a colon.
pub open spec fn parse_head(input: Seq<u8>) -> Option<Head> {
    if input.len() >= 1 && input[0] == QUOTE {
        let len = run_len(Class::Letter, input.skip(1)) as int;
        if 1 + len < input.len() && input[1 + len] == QUOTE {
            Some(Head { tagged: false, tag: input.subrange(1, 1 + len), taken: (len + 2) as nat })
        } else {
            None
        }
    } else if input.len() >= 2 && input[0] == OBJECT_OPEN && input[1] == QUOTE {
        let len = run_len(Class::Letter, input.skip(2)) as int;
        if 3 + len < input.len() && input[2 + len] == QUOTE && input[3 + len] == COLON {
            Some(Head { tagged: true, tag: input.subrange(2, 2 + len), taken: (len + 4) as nat })
        } else {
            None
        }
    } else {
        None
    }
}

/// The name of a variant that carries nothing is read back, whatever
/// follows it.
pub proof fn lemma_parse_unit(tag: Seq<u8>, rest: Seq<u8>)
    requires
        all_in(Class::Letter, tag),
    ensures
        parse_head(ser_unit(tag) + rest) == Some(
            Head { tagged: false, tag, taken: ser_unit(tag).len() },
        ),
{
    let input = ser_unit(tag) + rest;
    let after = seq![QUOTE] + rest;
    assert(input[0] == QUOTE);
    assert(input.skip(1) =~= tag + after);
    lemma_run_len(Class::Letter, tag, after);
    assert(input[1 + tag.len() as int] == QUOTE);
    assert(input.subrange(1, 1 + tag.len() as int) =~= tag);
}

/// The name of a variant that carries something is read back, whatever
/// follows its beginning.
pub proof fn lemma_parse_open(tag: Seq<u8>, rest: Seq<u8>)
    requires
        all_in(Class::Letter, tag),
    ensures
        parse_head(ser_open(tag) + rest) == Some(
            Head { tagged: true, tag, taken: ser_open(tag).len() },
        ),
{
    let input = ser_open(tag) + rest;
    let after = seq![QUOTE, COLON] + rest;
    assert(input[0] == OBJECT_OPEN);
    assert(input[1] == QUOTE);
    assert(input.skip(2) =~= tag + after);
    lemma_run_len(Class::Letter, tag, after);
    assert(input[2 + tag.len() as int] == QUOTE);
    assert(input[3 + tag.len() as int] == COLON);
    assert(input.subrange(2, 2 + tag.len() as int) =~= tag);
}

/// How the beginning of a variant is written.
pub open spec fn ser_head(head: Head) -> Seq<u8> {
    if head.tagged {
        ser_open(head.tag)
    } else {
        ser_unit(head.tag)
    }
}

/// The beginning of a variant that is read was written so, and its name is
/// made of letters.
pub proof fn lemma_parse_head_written(input: Seq<u8>)
    requires
        parse_head(input) is Some,
    ensures
        (parse_head(input)->0).taken <= input.len(),
        input.subrange(0, (parse_head(input)->0).taken as int) == ser_head(parse_head(input)->0),
        all_in(Class::Letter, (parse_head(input)->0).tag),
{
    let head = parse_head(input)->0;
    if head.tagged {
        lemma_run_in_class(Class::Letter, input.skip(2));
        let len = run_len(Class::Letter, input.skip(2)) as int;
        assert(input.skip(2).subrange(0, len) =~= input.subrange(2, 2 + len));
        assert(input.subrange(0, head.taken as int) =~= ser_open(head.tag));
    } else {
        lemma_run_in_class(Class::Letter, input.skip(1));
        let len = run_len(Class::Letter, input.skip(1)) as int;
        assert(input.skip(1).subrange(0, len) =~= input.subrange(1, 1 + len));
        assert(input.subrange(0, head.taken as int) =~= ser_unit(head.tag));
    }
}

/// Where the beginning of a variant stands in a buffer.
#[derive(Clone, Copy, Debug)]
pub struct Variant {
    /// Whether the variant carries something.
    pub tagged: bool,
    /// Where its name begins.
    pub start: usize,
    /// Where its name ends.
    pub end: usize,
    /// Where what it carries begins, or what follows it.
    pub next: usize,
}

impl Variant {
    /// The beginning that stands in `buf` at `pos`, as a value.
    pub open spec fn head(self, buf: Seq<u8>, pos: int) -> Head {
        Head {
            tagged: self.tagged,
            tag: buf.subrange(self.start as int, self.end as int),
            taken: (self.next - pos) as nat,
        }
    }
}

/// Appends the variant named `tag`, which carries nothing, to `out`.
pub fn put_unit(out: &mut Vec<u8>, tag: &str)
    ensures
        final(out)@ == old(out)@ + ser_unit(lit(tag)),
{
    out.push(QUOTE);
    put_literal(out, tag);
    out.push(QUOTE);
    assert(out@ =~= old(out)@ + ser_unit(lit(tag)));
}

/// Appends the beginning of the variant named `tag`, which carries
/// something, to `out`.
pub fn put_open(out: &mut Vec<u8>, tag: &str)
    ensures
        final(out)@ == old(out)@ + ser_open(lit(tag)),
{
    out.push(OBJECT_OPEN);
    out.push(QUOTE);
    put_literal(out, tag);
    out.push(QUOTE);
    out.push(COLON);
    assert(out@ =~= old(out)@ + ser_open(lit(tag)));
}

/// Reads the beginning of the variant that `buf` holds at `pos`, or `None`
/// where none stands there.
pub fn take_head(buf: &[u8], pos: usize) -> (taken: Option<Variant>)
    ensures
        match taken {
            Some(variant) => pos <= variant.start <= variant.end <= variant.next <= buf.len()
                && parse_head(buf@.skip(pos as int)) == Some(variant.head(buf@, pos as int)),
            None => pos > buf.len() || parse_head(buf@.skip(pos as int)) is None,
        },
{
    if pos > buf.len() {
        return None;
    }
    let ghost input = buf@.skip(pos as int);
    let left = buf.len() - pos;
    if left >= 1 && buf[pos] == QUOTE {
        assert(input.skip(1) =~= buf@.skip(pos + 1));
        let end = run_end(buf, pos + 1, Class::Letter);
        if end < buf.len() && buf[end] == QUOTE {
            assert(input.subrange(1, 1 + (end - pos - 1)) =~= buf@.subrange(pos + 1, end as int));
            Some(Variant { tagged: false, start: pos + 1, end, next: end + 1 })
        } else {
            None
        }
    } else if left >= 2 && buf[pos] == OBJECT_OPEN && buf[pos + 1] == QUOTE {
        assert(input.skip(2) =~= buf@.skip(pos + 2));
        let end = run_end(buf, pos + 2, Class::Letter);
        if buf.len() - end >= 2 && buf[end] == QUOTE && buf[end + 1] == COLON {
            assert(input.subrange(2, 2 + (end - pos - 2)) =~= buf@.subrange(pos + 2, end as int));
            Some(Variant { tagged: true, start: pos + 2, end, next: end + 2 })
        } else {
            None
        }
    } else {
        None
    }
}

/// Whether the bytes of `buf` from `start` to `end` are those of `text`.
pub fn holds_literal(buf: &[u8], start: usize, end: usize, text: &str) -> (held: bool)
    ensures
        held <==> start <= end <= buf.len() && buf@.subrange(start as int, end as int) == lit(text),
{
    if start > end || end > buf.len() {
        return false;
    }
    let ghost part = buf@.subrange(start as int, end as int);
    match skip_literal(buf, start, text) {
        Some(behind) => {
            if behind == end {
                assert(buf@.skip(start as int).subrange(0, lit(text).len() as int) =~= part);
                true
            } else {
                false
            }
        },
        None => {
            proof {
                if part == lit(text) {
                    assert(buf@.skip(start as int).subrange(0, lit(text).len() as int) =~= part);
                }
            }
            false
        },
    }
}

} // verus!
