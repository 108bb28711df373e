//! What is computed when a worker is launched.
//!
//! The worker is the running program, executed once more with the flag
//! [`WORKER_FLAG`] and the number of the descriptor that it inherits. The
//! descriptor is one end of the channel. It crosses the `exec` because its
//! close-on-exec flag is cleared beforehand: [`inheritable`] says which flags
//! the descriptor is given. Creating the channel, reading and writing the
//! flags and spawning the process are the caller's part.

use vstd::prelude::*;

verus! {

/// The argument that makes the program run as a session worker.
pub const WORKER_FLAG: &'static str = "--session-worker";

/// The descriptor flags with which a descriptor that has the flags `flags`
/// survives an `exec`, where `close_on_exec` is the bit by which the
/// platform marks a descriptor as closed by a successful `exec`. That bit is
/// cleared and every other bit is as it was.
///
/// The bit is the caller's to give, since platforms differ in it.
pub fn inheritable(flags: i32, close_on_exec: i32) -> (cleared: i32)
    ensures
        cleared == flags & !close_on_exec,
        cleared & close_on_exec == 0,
        cleared | (flags & close_on_exec) == flags,
{
    assert((flags & !close_on_exec) & close_on_exec == 0) by (bit_vector);
    assert((flags & !close_on_exec) | (flags & close_on_exec) == flags) by (bit_vector);
    flags & !close_on_exec
}

/// A descriptor that was made inheritable stays so, and a bit outside
/// `close_on_exec` is set afterwards exactly where it was set before.
pub proof fn lemma_inheritable_keeps_other_bits(flags: i32, close_on_exec: i32, other: i32)
    requires
        other & close_on_exec == 0,
    ensures
        (flags & !close_on_exec) & other == flags & other,
        (flags & !close_on_exec) & !close_on_exec == flags & !close_on_exec,
{
    assert(other & close_on_exec == 0 ==> (flags & !close_on_exec) & other == flags & other)
        by (bit_vector);
    assert((flags & !close_on_exec) & !close_on_exec == flags & !close_on_exec) by (bit_vector);
}

/// The character of the decimal digit `digit`.
pub open spec fn digit_char(digit: nat) -> char {
    seq!['0', '1', '2', '3', '4', '5', '6', '7', '8', '9'][digit as int]
}

/// The decimal notation of `number`, without sign or leading zeros.
pub open spec fn decimal(number: nat) -> Seq<char>
    decreases number,
{
    if number < 10 {
        seq![digit_char(number)]
    } else {
        decimal(number / 10).push(digit_char(number % 10))
    }
}

fn digit_text(digit: usize) -> (text: &'static str)
    requires
        digit < 10,
    ensures
        text@ == seq![digit_char(digit as nat)],
{
    proof {
        reveal_strlit("0");
        reveal_strlit("1");
        reveal_strlit("2");
        reveal_strlit("3");
        reveal_strlit("4");
        reveal_strlit("5");
        reveal_strlit("6");
        reveal_strlit("7");
        reveal_strlit("8");
        reveal_strlit("9");
    }
    let text = match digit {
        0 => "0",
        1 => "1",
        2 => "2",
        3 => "3",
        4 => "4",
        5 => "5",
        6 => "6",
        7 => "7",
        8 => "8",
        _ => "9",
    };
    assert(text@ =~= seq![digit_char(digit as nat)]);
    text
}

/// Writes `number` in decimal notation.
pub fn decimal_text(number: usize) -> (text: String)
    ensures
        text@ == decimal(number as nat),
    decreases number,
{
    if number < 10 {
        digit_text(number).to_owned()
    } else {
        let mut text = decimal_text(number / 10);
        text.append(digit_text(number % 10));
        assert(text@ =~= decimal((number / 10) as nat).push(digit_char((number % 10) as nat)));
        text
    }
}

/// The arguments that the program is executed with to run as the worker that
/// inherits `descriptor`: the worker flag, then the descriptor's number in
/// decimal notation.
pub fn worker_arguments(descriptor: usize) -> (arguments: Vec<String>)
    ensures
        arguments.deep_view() == seq![WORKER_FLAG@, decimal(descriptor as nat)],
{
    let mut arguments: Vec<String> = Vec::new();
    arguments.push(WORKER_FLAG.to_owned());
    arguments.push(decimal_text(descriptor));
    assert(arguments.deep_view() =~= seq![WORKER_FLAG@, decimal(descriptor as nat)]);
    arguments
}

} // verus!
