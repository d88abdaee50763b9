//! The reading side: a text taken apart into its own bytes and the escape
//! sequences in it, as a terminal tells them apart.
//!
//! An escape sequence is `ESC [`, then any number of parameter bytes
//! (`0` to `?`), then any number of intermediate bytes (space to `/`), then
//! one final byte (`@` to `~`). What does not have this form stays text.

use crate::escape::{BRACKET, ESC};
use vstd::prelude::*;

verus! {

/// A parameter byte of an escape sequence: a digit or one of `:;<=>?`.
pub open spec fn is_parameter(byte: u8) -> bool {
    0x30 <= byte <= 0x3f
}

/// An intermediate byte of an escape sequence: space to `/`.
pub open spec fn is_intermediate(byte: u8) -> bool {
    0x20 <= byte <= 0x2f
}

/// A final byte of an escape sequence: `@` to `~`.
pub open spec fn is_final(byte: u8) -> bool {
    0x40 <= byte <= 0x7e
}

/// Length of the intermediate bytes and the final byte at the start of
/// `bytes`; zero where `bytes` does not start with such an ending.
pub open spec fn ending_len(bytes: Seq<u8>) -> nat
    decreases bytes.len(),
{
    if bytes.len() == 0 {
        0
    } else if is_intermediate(bytes[0]) {
        let rest = ending_len(bytes.skip(1));
        if rest > 0 {
            rest + 1
        } else {
            0
        }
    } else if is_final(bytes[0]) {
        1
    } else {
        0
    }
}

/// Length of the parameter bytes, intermediate bytes and final byte at the
/// start of `bytes`; zero where `bytes` does not start with all of that.
pub open spec fn body_len(bytes: Seq<u8>) -> nat
    decreases bytes.len(),
{
    if bytes.len() == 0 {
        0
    } else if is_parameter(bytes[0]) {
        let rest = body_len(bytes.skip(1));
        if rest > 0 {
            rest + 1
        } else {
            0
        }
    } else {
        ending_len(bytes)
    }
}

/// Length of the escape sequence at the start of `bytes`; zero where
/// `bytes` does not start with one.
pub open spec fn sequence_len(bytes: Seq<u8>) -> nat {
    if bytes.len() >= 2 && bytes[0] == ESC && bytes[1] == BRACKET {
        let body = body_len(bytes.skip(2));
        if body > 0 {
            body + 2
        } else {
            0
        }
    } else {
        0
    }
}

/// An ending lies within the bytes it is found in.
pub proof fn lemma_ending_bounds(bytes: Seq<u8>)
    ensures
        ending_len(bytes) <= bytes.len(),
    decreases bytes.len(),
{
    if bytes.len() > 0 && is_intermediate(bytes[0]) {
        lemma_ending_bounds(bytes.skip(1));
    }
}

/// A body lies within the bytes it is found in.
pub proof fn lemma_body_bounds(bytes: Seq<u8>)
    ensures
        body_len(bytes) <= bytes.len(),
    decreases bytes.len(),
{
    if bytes.len() > 0 {
        if is_parameter(bytes[0]) {
            lemma_body_bounds(bytes.skip(1));
        } else {
            lemma_ending_bounds(bytes);
        }
    }
}

/// An escape sequence lies within the bytes it is found in, and is at least
/// three bytes long.
pub proof fn lemma_sequence_bounds(bytes: Seq<u8>)
    ensures
        sequence_len(bytes) <= bytes.len(),
        sequence_len(bytes) == 0 || sequence_len(bytes) >= 3,
{
    if bytes.len() >= 2 {
        lemma_body_bounds(bytes.skip(2));
    }
}

/// `bytes` without its escape sequences.
pub open spec fn stripped(bytes: Seq<u8>) -> Seq<u8>
    decreases bytes.len(),
{
    if bytes.len() == 0 {
        Seq::empty()
    } else {
        let n = sequence_len(bytes) as int;
        proof {
            lemma_sequence_bounds(bytes);
        }
        if n > 0 {
            stripped(bytes.skip(n))
        } else {
            seq![bytes[0]] + stripped(bytes.skip(1))
        }
    }
}

/// The escape sequences of `bytes`, in their order.
pub open spec fn sequences(bytes: Seq<u8>) -> Seq<Seq<u8>>
    decreases bytes.len(),
{
    if bytes.len() == 0 {
        Seq::empty()
    } else {
        let n = sequence_len(bytes) as int;
        proof {
            lemma_sequence_bounds(bytes);
        }
        if n > 0 {
            seq![bytes.take(n)] + sequences(bytes.skip(n))
        } else {
            sequences(bytes.skip(1))
        }
    }
}

/// No escape sequence starts anywhere in `bytes`.
pub open spec fn is_plain(bytes: Seq<u8>) -> bool {
    forall|at: int| 0 <= at < bytes.len() ==> sequence_len(#[trigger] bytes.skip(at)) == 0
}

fn ending_length(input: &[u8], start: usize) -> (n: usize)
    requires
        start <= input.len(),
    ensures
        n == ending_len(input@.skip(start as int)),
        start + n <= input.len(),
{
    let mut at: usize = start;
    while at < input.len() && 0x20 <= input[at] && input[at] <= 0x2f
        invariant
            start <= at <= input.len(),
            ending_len(input@.skip(start as int)) == if ending_len(input@.skip(at as int)) > 0 {
                (at - start) + ending_len(input@.skip(at as int))
            } else {
                0
            },
        decreases input.len() - at,
    {
        assert(input@.skip(at as int).skip(1) =~= input@.skip(at + 1));
        at = at + 1;
    }
    if at < input.len() && 0x40 <= input[at] && input[at] <= 0x7e {
        at + 1 - start
    } else {
        0
    }
}

fn body_length(input: &[u8], start: usize) -> (n: usize)
    requires
        start <= input.len(),
    ensures
        n == body_len(input@.skip(start as int)),
        start + n <= input.len(),
{
    let mut at: usize = start;
    while at < input.len() && 0x30 <= input[at] && input[at] <= 0x3f
        invariant
            start <= at <= input.len(),
            body_len(input@.skip(start as int)) == if body_len(input@.skip(at as int)) > 0 {
                (at - start) + body_len(input@.skip(at as int))
            } else {
                0
            },
        decreases input.len() - at,
    {
        assert(input@.skip(at as int).skip(1) =~= input@.skip(at + 1));
        at = at + 1;
    }
    let ending: usize = ending_length(input, at);
    if ending > 0 {
        at - start + ending
    } else {
        0
    }
}

/// Length of the escape sequence that starts at `start`; zero where none
/// starts there.
pub fn sequence_length(input: &[u8], start: usize) -> (n: usize)
    requires
        start <= input.len(),
    ensures
        n == sequence_len(input@.skip(start as int)),
        start + n <= input.len(),
{
    if input.len() - start >= 2 && input[start] == ESC && input[start + 1] == BRACKET {
        assert(input@.skip(start as int).skip(2) =~= input@.skip(start + 2));
        let body: usize = body_length(input, start + 2);
        if body > 0 {
            body + 2
        } else {
            0
        }
    } else {
        0
    }
}

/// Removes every escape sequence from `input` and keeps all other bytes.
pub fn strip_escapes(input: &[u8]) -> (out: Vec<u8>)
    ensures
        out@ == stripped(input@),
{
    let mut out: Vec<u8> = Vec::new();
    let mut at: usize = 0;
    assert(input@.skip(0) =~= input@);
    while at < input.len()
        invariant
            at <= input.len(),
            out@ + stripped(input@.skip(at as int)) == stripped(input@),
        decreases input.len() - at,
    {
        let n: usize = sequence_length(input, at);
        let ghost rest = input@.skip(at as int);
        if n > 0 {
            assert(rest.skip(n as int) =~= input@.skip(at + n));
            at = at + n;
        } else {
            out.push(input[at]);
            assert(rest.skip(1) =~= input@.skip(at + 1));
            at = at + 1;
        }
    }
    out
}

} // verus!
