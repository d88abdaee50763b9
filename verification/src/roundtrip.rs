//! What reading gives back of what rendering wrote: the text as it was, and
//! exactly the escape sequences that the encoder chose.
//!
//! These laws hold for plain text, that is text without escape sequences of
//! its own. Where a text has its own, a reader cannot tell them from the
//! ones that rendering added.

use crate::escape::{
    contrast, digits, layer_digit, paint_sequence, reset_sequence, transition, ColorState, Layer,
    BRACKET, DIGIT_ZERO, ESC, FINAL_M, SEMICOLON,
};
use crate::opts::Parameters;
use crate::render::{
    column_after, first_line_len, ink_after, lemma_first_line_bounds, paint, pass, rendered,
    rendered_lines,
};
use crate::stream::ends_in_reset;
use crate::strip::{
    body_len, ending_len, is_final, is_intermediate, is_parameter, is_plain,
    lemma_sequence_bounds, sequence_len, sequences, stripped,
};
use vstd::prelude::*;

verus! {

/// Every byte of `bytes` is a decimal digit.
pub open spec fn all_digits(bytes: Seq<u8>) -> bool {
    forall|i: int| 0 <= i < bytes.len() ==> DIGIT_ZERO <= #[trigger] bytes[i] <= DIGIT_ZERO + 9
}

/// Every byte of `bytes` is a parameter byte.
pub open spec fn all_parameters(bytes: Seq<u8>) -> bool {
    forall|i: int| 0 <= i < bytes.len() ==> is_parameter(#[trigger] bytes[i])
}

/// A number is written with at least one byte, all of them digits.
pub proof fn lemma_digits(n: nat)
    ensures
        digits(n).len() >= 1,
        all_digits(digits(n)),
    decreases n,
{
    if n >= 10 {
        lemma_digits(n / 10);
    }
}

/// Parameter bytes followed by a final byte are the whole body of a
/// sequence, whatever comes after.
proof fn lemma_body_of_parameters(head: Seq<u8>, last: u8, rest: Seq<u8>)
    requires
        all_parameters(head),
        is_final(last),
    ensures
        body_len(head + seq![last] + rest) == head.len() + 1,
    decreases head.len(),
{
    let whole = head + seq![last] + rest;
    if head.len() == 0 {
        assert(ending_len(whole) == 1);
    } else {
        assert(whole.skip(1) =~= head.skip(1) + seq![last] + rest);
        lemma_body_of_parameters(head.skip(1), last, rest);
    }
}

/// The sequence that sets a colour is one escape sequence, also with other
/// bytes behind it. It ends in `m`, and its third byte names the layer.
pub proof fn lemma_paint_is_sequence(layer: Layer, ink: ColorState, rest: Seq<u8>)
    requires
        ink !is Unset,
    ensures
        paint_sequence(layer, ink).len() >= 9,
        sequence_len(paint_sequence(layer, ink) + rest) == paint_sequence(layer, ink).len(),
        paint_sequence(layer, ink)[0] == ESC,
        paint_sequence(layer, ink)[2] == layer_digit(layer),
        paint_sequence(layer, ink).last() == FINAL_M,
{
    let sequence = paint_sequence(layer, ink);
    let whole = sequence + rest;
    match ink {
        ColorState::Unset => {},
        ColorState::Indexed(index) => {
            lemma_digits(index as nat);
            let head = seq![layer_digit(layer), 0x38, SEMICOLON, 0x35, SEMICOLON] + digits(
                index as nat,
            );
            assert(whole.skip(2) =~= head + seq![FINAL_M] + rest);
            lemma_body_of_parameters(head, FINAL_M, rest);
        },
        ColorState::TrueColor(rgb) => {
            lemma_digits(rgb.r as nat);
            lemma_digits(rgb.g as nat);
            lemma_digits(rgb.b as nat);
            let head = seq![layer_digit(layer), 0x38, SEMICOLON, 0x32, SEMICOLON] + digits(
                rgb.r as nat,
            ) + seq![SEMICOLON] + digits(rgb.g as nat) + seq![SEMICOLON] + digits(rgb.b as nat);
            assert(whole.skip(2) =~= head + seq![FINAL_M] + rest);
            lemma_body_of_parameters(head, FINAL_M, rest);
        },
    }
}

/// The reset is one escape sequence, also with other bytes behind it.
pub proof fn lemma_reset_is_sequence(rest: Seq<u8>)
    ensures
        sequence_len(reset_sequence() + rest) == 4,
{
    let whole = reset_sequence() + rest;
    assert(whole.skip(2) =~= seq![DIGIT_ZERO] + seq![FINAL_M] + rest);
    lemma_body_of_parameters(seq![DIGIT_ZERO], FINAL_M, rest);
}

/// The sequences that one change of colour writes: none, one, or with
/// `invert` after no colour two.
pub open spec fn transition_sequences(previous: ColorState, ink: ColorState, invert: bool) -> Seq<
    Seq<u8>,
> {
    if ink == previous {
        Seq::empty()
    } else if !invert {
        seq![paint_sequence(Layer::Foreground, ink)]
    } else if previous is Unset {
        seq![
            paint_sequence(Layer::Foreground, contrast(ink)),
            paint_sequence(Layer::Background, ink),
        ]
    } else {
        seq![paint_sequence(Layer::Background, ink)]
    }
}

/// The sequences that painting a line writes, in their order.
pub open spec fn written(
    line: Seq<u8>,
    row: nat,
    column: nat,
    phase: nat,
    params: Parameters,
    previous: ColorState,
) -> Seq<Seq<u8>>
    decreases line.len(),
{
    if line.len() == 0 {
        Seq::empty()
    } else {
        let byte = line[0];
        let here = column_after(column, byte);
        let ink = ink_after(previous, byte, row, here, phase, params);
        transition_sequences(previous, ink, params.invert) + written(
            line.skip(1),
            row,
            here,
            phase,
            params,
            ink,
        )
    }
}

/// Reading takes a leading escape sequence off as one.
proof fn lemma_read_sequence(sequence: Seq<u8>, rest: Seq<u8>)
    requires
        sequence.len() > 0,
        sequence_len(sequence + rest) == sequence.len(),
    ensures
        stripped(sequence + rest) == stripped(rest),
        sequences(sequence + rest) == seq![sequence] + sequences(rest),
{
    let whole = sequence + rest;
    assert(whole.skip(sequence.len() as int) =~= rest);
    assert(whole.take(sequence.len() as int) =~= sequence);
}

/// Reading keeps a leading byte that starts no escape sequence.
proof fn lemma_read_byte(byte: u8, rest: Seq<u8>)
    requires
        sequence_len(seq![byte] + rest) == 0,
    ensures
        stripped(seq![byte] + rest) == seq![byte] + stripped(rest),
        sequences(seq![byte] + rest) == sequences(rest),
{
    let whole = seq![byte] + rest;
    assert(whole.skip(1) =~= rest);
}

/// Reading takes a change of colour off as the sequences it was written as.
proof fn lemma_read_transition(
    previous: ColorState,
    ink: ColorState,
    invert: bool,
    rest: Seq<u8>,
)
    requires
        ink == previous || ink !is Unset,
    ensures
        stripped(transition(previous, ink, invert) + rest) == stripped(rest),
        sequences(transition(previous, ink, invert) + rest) == transition_sequences(
            previous,
            ink,
            invert,
        ) + sequences(rest),
        transition(previous, ink, invert).len() > 0 ==> transition(previous, ink, invert)[0]
            == ESC,
{
    if ink == previous {
        assert(transition_sequences(previous, ink, invert) + sequences(rest) =~= sequences(rest));
    } else if !invert {
        let only = paint_sequence(Layer::Foreground, ink);
        lemma_paint_is_sequence(Layer::Foreground, ink, rest);
        lemma_read_sequence(only, rest);
    } else if previous is Unset {
        let first = paint_sequence(Layer::Foreground, contrast(ink));
        let second = paint_sequence(Layer::Background, ink);
        lemma_paint_is_sequence(Layer::Foreground, contrast(ink), second + rest);
        lemma_read_sequence(first, second + rest);
        lemma_paint_is_sequence(Layer::Background, ink, rest);
        lemma_read_sequence(second, rest);
        assert((first + second) + rest =~= first + (second + rest));
    } else {
        let only = paint_sequence(Layer::Background, ink);
        lemma_paint_is_sequence(Layer::Background, ink, rest);
        lemma_read_sequence(only, rest);
    }
}

/// An ending found in painted bytes, in front of bytes that start with an
/// escape character, was in the line already.
proof fn lemma_painted_ending(
    line: Seq<u8>,
    row: nat,
    column: nat,
    phase: nat,
    params: Parameters,
    previous: ColorState,
    tail: Seq<u8>,
)
    requires
        tail.len() > 0,
        tail[0] == ESC,
    ensures
        ending_len(paint(line, row, column, phase, params, previous) + tail) > 0 ==> ending_len(
            line,
        ) > 0,
    decreases line.len(),
{
    let whole = paint(line, row, column, phase, params, previous) + tail;
    if line.len() == 0 {
        assert(whole =~= tail);
    } else {
        let byte = line[0];
        let here = column_after(column, byte);
        let ink = ink_after(previous, byte, row, here, phase, params);
        let change = transition(previous, ink, params.invert);
        let rest = paint(line.skip(1), row, here, phase, params, ink) + tail;
        lemma_read_transition(previous, ink, params.invert, rest);
        if change.len() > 0 {
            assert(whole[0] == ESC);
        } else {
            assert(whole.skip(1) =~= rest);
            lemma_painted_ending(line.skip(1), row, here, phase, params, ink, tail);
        }
    }
}

/// A body found in painted bytes, in front of bytes that start with an
/// escape character, was in the line already.
proof fn lemma_painted_body(
    line: Seq<u8>,
    row: nat,
    column: nat,
    phase: nat,
    params: Parameters,
    previous: ColorState,
    tail: Seq<u8>,
)
    requires
        tail.len() > 0,
        tail[0] == ESC,
    ensures
        body_len(paint(line, row, column, phase, params, previous) + tail) > 0 ==> body_len(line)
            > 0,
    decreases line.len(),
{
    let whole = paint(line, row, column, phase, params, previous) + tail;
    if line.len() == 0 {
        assert(whole =~= tail);
    } else {
        let byte = line[0];
        let here = column_after(column, byte);
        let ink = ink_after(previous, byte, row, here, phase, params);
        let change = transition(previous, ink, params.invert);
        let rest = paint(line.skip(1), row, here, phase, params, ink) + tail;
        lemma_read_transition(previous, ink, params.invert, rest);
        if change.len() > 0 {
            assert(whole[0] == ESC);
        } else {
            assert(whole.skip(1) =~= rest);
            if is_parameter(byte) {
                lemma_painted_body(line.skip(1), row, here, phase, params, ink, tail);
            } else {
                lemma_painted_ending(line, row, column, phase, params, previous, tail);
            }
        }
    }
}

/// A byte of a plain line starts no escape sequence in the painted line
/// either.
proof fn lemma_painted_byte_is_text(
    line: Seq<u8>,
    row: nat,
    column: nat,
    phase: nat,
    params: Parameters,
    previous: ColorState,
    tail: Seq<u8>,
)
    requires
        line.len() > 0,
        sequence_len(line) == 0,
        tail.len() > 0,
        tail[0] == ESC,
    ensures
        sequence_len(
            seq![line[0]] + (paint(
                line.skip(1),
                row,
                column,
                phase,
                params,
                previous,
            ) + tail),
        ) == 0,
{
    let next = line.skip(1);
    let painted = paint(next, row, column, phase, params, previous) + tail;
    let whole = seq![line[0]] + painted;
    if line[0] == ESC && whole[1] == BRACKET {
        if next.len() == 0 {
            assert(painted =~= tail);
        } else {
            let byte = next[0];
            let here = column_after(column, byte);
            let ink = ink_after(previous, byte, row, here, phase, params);
            let change = transition(previous, ink, params.invert);
            let rest = paint(next.skip(1), row, here, phase, params, ink) + tail;
            lemma_read_transition(previous, ink, params.invert, rest);
            if change.len() > 0 {
                assert(painted[0] == ESC);
            } else {
                assert(whole.skip(2) =~= rest);
                assert(next.skip(1) =~= line.skip(2));
                lemma_painted_body(next.skip(1), row, here, phase, params, ink, tail);
            }
        }
    }
}

/// Reading a painted plain line, its reset and what follows gives the line,
/// the sequences written for it, the reset, and what reading gives of the
/// rest.
pub proof fn lemma_read_painted(
    line: Seq<u8>,
    row: nat,
    column: nat,
    phase: nat,
    params: Parameters,
    previous: ColorState,
    after: Seq<u8>,
)
    requires
        is_plain(line),
    ensures
        stripped(paint(line, row, column, phase, params, previous) + reset_sequence() + after)
            == line + stripped(after),
        sequences(paint(line, row, column, phase, params, previous) + reset_sequence() + after)
            == written(line, row, column, phase, params, previous) + seq![reset_sequence()]
            + sequences(after),
    decreases line.len(),
{
    let tail = reset_sequence() + after;
    let whole = paint(line, row, column, phase, params, previous) + reset_sequence() + after;
    if line.len() == 0 {
        assert(whole =~= reset_sequence() + after);
        lemma_reset_is_sequence(after);
        lemma_read_sequence(reset_sequence(), after);
    } else {
        let byte = line[0];
        let next = line.skip(1);
        let here = column_after(column, byte);
        let ink = ink_after(previous, byte, row, here, phase, params);
        let change = transition(previous, ink, params.invert);
        let painted = paint(next, row, here, phase, params, ink);
        assert(whole =~= change + (seq![byte] + (painted + tail)));
        lemma_read_transition(previous, ink, params.invert, seq![byte] + (painted + tail));
        assert(line.skip(0) =~= line);
        lemma_painted_byte_is_text(line, row, here, phase, params, ink, tail);
        lemma_read_byte(byte, painted + tail);
        assert(is_plain(next)) by {
            assert forall|at: int| 0 <= at < next.len() implies sequence_len(
                #[trigger] next.skip(at),
            ) == 0 by {
                assert(next.skip(at) =~= line.skip(at + 1));
            }
        }
        lemma_read_painted(next, row, here, phase, params, ink, after);
        assert(painted + tail =~= painted + reset_sequence() + after);
    }
}

/// Rendering adds nothing but escape sequences: reading a rendered plain
/// line gives the line back, byte for byte.
pub proof fn lemma_render_round_trip(line: Seq<u8>, row: nat, phase: nat, params: Parameters)
    requires
        is_plain(line),
    ensures
        stripped(rendered(line, row, phase, params)) == line,
        sequences(rendered(line, row, phase, params)) == written(
            line,
            row,
            0,
            phase,
            params,
            ColorState::Unset,
        ).push(reset_sequence()),
{
    lemma_read_painted(line, row, 0, phase, params, ColorState::Unset, Seq::empty());
}

/// An ending found in the first bytes of a text is found in the text.
proof fn lemma_ending_of_prefix(bytes: Seq<u8>, n: int)
    requires
        0 <= n <= bytes.len(),
    ensures
        ending_len(bytes.take(n)) > 0 ==> ending_len(bytes) > 0,
    decreases n,
{
    if n > 0 && is_intermediate(bytes[0]) {
        assert(bytes.take(n).skip(1) =~= bytes.skip(1).take(n - 1));
        lemma_ending_of_prefix(bytes.skip(1), n - 1);
    }
}

/// A body found in the first bytes of a text is found in the text.
proof fn lemma_body_of_prefix(bytes: Seq<u8>, n: int)
    requires
        0 <= n <= bytes.len(),
    ensures
        body_len(bytes.take(n)) > 0 ==> body_len(bytes) > 0,
    decreases n,
{
    if n > 0 {
        if is_parameter(bytes[0]) {
            assert(bytes.take(n).skip(1) =~= bytes.skip(1).take(n - 1));
            lemma_body_of_prefix(bytes.skip(1), n - 1);
        } else {
            lemma_ending_of_prefix(bytes, n);
        }
    }
}

/// The first bytes of a plain text are plain, and so is the rest.
pub proof fn lemma_plain_parts(bytes: Seq<u8>, n: int)
    requires
        is_plain(bytes),
        0 <= n <= bytes.len(),
    ensures
        is_plain(bytes.take(n)),
        is_plain(bytes.skip(n)),
{
    let first = bytes.take(n);
    let rest = bytes.skip(n);
    assert forall|at: int| 0 <= at < first.len() implies sequence_len(#[trigger] first.skip(at))
        == 0 by {
        let part = first.skip(at);
        let full = bytes.skip(at);
        if part.len() >= 2 {
            assert(part.skip(2) =~= full.skip(2).take(n - at - 2));
            lemma_body_of_prefix(full.skip(2), n - at - 2);
        }
    }
    assert forall|at: int| 0 <= at < rest.len() implies sequence_len(#[trigger] rest.skip(at))
        == 0 by {
        assert(rest.skip(at) =~= bytes.skip(n + at));
    }
}

/// The sequences that rendering all lines of a text writes, in their order:
/// for each line those of its colours, then its reset.
pub open spec fn written_lines(input: Seq<u8>, row: nat, phase: nat, params: Parameters) -> Seq<
    Seq<u8>,
>
    decreases input.len(),
{
    if input.len() == 0 {
        Seq::empty()
    } else {
        let n = first_line_len(input) as int;
        proof {
            lemma_first_line_bounds(input);
        }
        written(input.take(n), row, 0, phase, params, ColorState::Unset).push(reset_sequence())
            + written_lines(input.skip(n), row + 1, phase, params)
    }
}

/// Reading the rendered lines of a plain text and what follows gives the
/// text, the sequences written for it, and what reading gives of the rest.
pub proof fn lemma_read_lines(
    input: Seq<u8>,
    row: nat,
    phase: nat,
    params: Parameters,
    after: Seq<u8>,
)
    requires
        is_plain(input),
    ensures
        stripped(rendered_lines(input, row, phase, params) + after) == input + stripped(after),
        sequences(rendered_lines(input, row, phase, params) + after) == written_lines(
            input,
            row,
            phase,
            params,
        ) + sequences(after),
    decreases input.len(),
{
    if input.len() == 0 {
        assert(written_lines(input, row, phase, params) + sequences(after) =~= sequences(after));
    } else {
        lemma_first_line_bounds(input);
        let n = first_line_len(input) as int;
        let line = input.take(n);
        let rest = input.skip(n);
        let painted = paint(line, row, 0, phase, params, ColorState::Unset);
        let list = written(line, row, 0, phase, params, ColorState::Unset);
        let below = rendered_lines(rest, row + 1, phase, params);
        lemma_plain_parts(input, n);
        lemma_read_painted(line, row, 0, phase, params, ColorState::Unset, below + after);
        lemma_read_lines(rest, row + 1, phase, params, after);
        assert(rendered_lines(input, row, phase, params) + after =~= painted + reset_sequence() + (
        below + after));
        assert(list + seq![reset_sequence()] + (written_lines(rest, row + 1, phase, params)
            + sequences(after)) =~= written_lines(input, row, phase, params) + sequences(after));
    }
}

/// Colour never alters, duplicates or drops content: reading a pass over a
/// plain text gives the text back, byte for byte.
pub proof fn lemma_pass_round_trip(input: Seq<u8>, phase: nat, params: Parameters)
    requires
        is_plain(input),
    ensures
        stripped(pass(input, phase, params)) == input,
{
    if input.len() == 0 {
        lemma_reset_is_sequence(Seq::empty());
        lemma_read_sequence(reset_sequence(), Seq::empty());
    } else {
        lemma_read_lines(input, 0, phase, params, Seq::empty());
    }
}

/// Two numbers with the same digits are the same number.
pub proof fn lemma_digits_injective(n: nat, m: nat)
    requires
        digits(n) == digits(m),
    ensures
        n == m,
    decreases n,
{
    lemma_digits(n / 10);
    lemma_digits(m / 10);
    if n >= 10 && m >= 10 {
        assert(digits(m).last() == (DIGIT_ZERO + m % 10) as u8);
        assert(digits(n).drop_last() =~= digits(n / 10));
        assert(digits(m).drop_last() =~= digits(m / 10));
        lemma_digits_injective(n / 10, m / 10);
    } else if n >= 10 {
        assert(digits(m).len() == 1);
    } else if m >= 10 {
        assert(digits(n).len() == 1);
    } else {
        assert(digits(m)[0] == (DIGIT_ZERO + m) as u8);
    }
}

/// Two digit strings, each followed by a byte that is no digit and by more
/// bytes, are equal only if the digit strings and the rest both are.
proof fn lemma_split_at_mark(
    first: Seq<u8>,
    first_rest: Seq<u8>,
    second: Seq<u8>,
    second_rest: Seq<u8>,
    mark: u8,
)
    requires
        all_digits(first),
        all_digits(second),
        !(DIGIT_ZERO <= mark <= DIGIT_ZERO + 9),
        first + seq![mark] + first_rest == second + seq![mark] + second_rest,
    ensures
        first == second,
        first_rest == second_rest,
{
    let left = first + seq![mark] + first_rest;
    let right = second + seq![mark] + second_rest;
    if first.len() < second.len() {
        assert(right[first.len() as int] == second[first.len() as int]);
    } else if second.len() < first.len() {
        assert(left[second.len() as int] == first[second.len() as int]);
    } else {
        assert(second =~= right.take(first.len() as int));
        assert(second_rest =~= right.skip(first.len() as int + 1));
    }
}

/// Different colours are written as different sequences.
pub proof fn lemma_paint_injective(layer: Layer, first: ColorState, second: ColorState)
    requires
        first !is Unset,
        second !is Unset,
        paint_sequence(layer, first) == paint_sequence(layer, second),
    ensures
        first == second,
{
    let left = paint_sequence(layer, first);
    let right = paint_sequence(layer, second);
    let none = Seq::<u8>::empty();
    match (first, second) {
        (ColorState::Indexed(a), ColorState::Indexed(b)) => {
            lemma_digits(a as nat);
            lemma_digits(b as nat);
            assert(left.skip(7) =~= digits(a as nat) + seq![FINAL_M] + none);
            assert(right.skip(7) =~= digits(b as nat) + seq![FINAL_M] + none);
            lemma_split_at_mark(digits(a as nat), none, digits(b as nat), none, FINAL_M);
            lemma_digits_injective(a as nat, b as nat);
        },
        (ColorState::TrueColor(a), ColorState::TrueColor(b)) => {
            lemma_digits(a.r as nat);
            lemma_digits(a.g as nat);
            lemma_digits(a.b as nat);
            lemma_digits(b.r as nat);
            lemma_digits(b.g as nat);
            lemma_digits(b.b as nat);
            let a_blue = digits(a.b as nat) + seq![FINAL_M] + none;
            let b_blue = digits(b.b as nat) + seq![FINAL_M] + none;
            let a_green = digits(a.g as nat) + seq![SEMICOLON] + a_blue;
            let b_green = digits(b.g as nat) + seq![SEMICOLON] + b_blue;
            assert(left.skip(7) =~= digits(a.r as nat) + seq![SEMICOLON] + a_green);
            assert(right.skip(7) =~= digits(b.r as nat) + seq![SEMICOLON] + b_green);
            lemma_split_at_mark(
                digits(a.r as nat),
                a_green,
                digits(b.r as nat),
                b_green,
                SEMICOLON,
            );
            lemma_split_at_mark(
                digits(a.g as nat),
                a_blue,
                digits(b.g as nat),
                b_blue,
                SEMICOLON,
            );
            lemma_split_at_mark(digits(a.b as nat), none, digits(b.b as nat), none, FINAL_M);
            lemma_digits_injective(a.r as nat, b.r as nat);
            lemma_digits_injective(a.g as nat, b.g as nat);
            lemma_digits_injective(a.b as nat, b.b as nat);
        },
        (ColorState::Indexed(_), ColorState::TrueColor(_)) => {
            assert(left[5] == 0x35 && right[5] == 0x32);
        },
        (ColorState::TrueColor(_), ColorState::Indexed(_)) => {
            assert(left[5] == 0x32 && right[5] == 0x35);
        },
        _ => {},
    }
}

/// The layer that carries the colour of a place: the foreground, or with
/// `invert` the background.
pub open spec fn colored_layer(invert: bool) -> Layer {
    if invert {
        Layer::Background
    } else {
        Layer::Foreground
    }
}

/// Every sequence written for a line sets a colour: it ends in `m` and is
/// no reset. No two in a row are the same, and the first differs from the
/// one that set the colour in force before the line.
pub proof fn lemma_written(
    line: Seq<u8>,
    row: nat,
    column: nat,
    phase: nat,
    params: Parameters,
    previous: ColorState,
)
    ensures
        forall|i: int|
            0 <= i < written(line, row, column, phase, params, previous).len() ==> {
                let sequence = #[trigger] written(line, row, column, phase, params, previous)[i];
                sequence.len() >= 9 && sequence.last() == FINAL_M && sequence != reset_sequence()
            },
        forall|i: int|
            0 <= i < written(line, row, column, phase, params, previous).len() - 1 ==> written(
                line,
                row,
                column,
                phase,
                params,
                previous,
            )[i] != #[trigger] written(line, row, column, phase, params, previous)[i + 1],
        previous !is Unset && written(line, row, column, phase, params, previous).len() > 0
            ==> written(line, row, column, phase, params, previous)[0] != paint_sequence(
            colored_layer(params.invert),
            previous,
        ),
    decreases line.len(),
{
    let list = written(line, row, column, phase, params, previous);
    if line.len() > 0 {
        let byte = line[0];
        let here = column_after(column, byte);
        let ink = ink_after(previous, byte, row, here, phase, params);
        let change = transition_sequences(previous, ink, params.invert);
        let rest = written(line.skip(1), row, here, phase, params, ink);
        let layer = colored_layer(params.invert);
        let none = Seq::<u8>::empty();
        lemma_written(line.skip(1), row, here, phase, params, ink);
        if ink != previous {
            lemma_paint_is_sequence(layer, ink, none);
            lemma_paint_is_sequence(Layer::Foreground, contrast(ink), none);
            if previous !is Unset {
                lemma_paint_is_sequence(layer, previous, none);
                if paint_sequence(layer, ink) == paint_sequence(layer, previous) {
                    lemma_paint_injective(layer, ink, previous);
                }
            }
            assert forall|i: int| 0 <= i < list.len() implies {
                let sequence = #[trigger] list[i];
                sequence.len() >= 9 && sequence.last() == FINAL_M && sequence != reset_sequence()
            } by {
                if i >= change.len() {
                    assert(list[i] == rest[i - change.len()]);
                } else {
                    assert(list[i][2] != reset_sequence()[2]);
                }
            }
            assert forall|i: int| 0 <= i < list.len() - 1 implies list[i] != #[trigger] list[i
                + 1] by {
                if i >= change.len() {
                    let at = i - change.len();
                    assert(rest[at] != rest[at + 1]);
                } else if i == change.len() - 1 {
                    assert(rest[0] != paint_sequence(layer, ink));
                } else {
                    assert(list[i][2] != list[i + 1][2]);
                }
            }
        } else {
            assert(list =~= rest);
        }
    }
}

/// A rendered plain line holds exactly one reset, as its last sequence, and
/// no sequence twice in a row.
pub proof fn lemma_line_sequences(line: Seq<u8>, row: nat, phase: nat, params: Parameters)
    requires
        is_plain(line),
    ensures
        sequences(rendered(line, row, phase, params)).len() >= 1,
        sequences(rendered(line, row, phase, params)).last() == reset_sequence(),
        forall|i: int|
            0 <= i < sequences(rendered(line, row, phase, params)).len() - 1 ==> {
                &&& #[trigger] sequences(rendered(line, row, phase, params))[i]
                    != reset_sequence()
                &&& sequences(rendered(line, row, phase, params))[i] != sequences(
                    rendered(line, row, phase, params),
                )[i + 1]
            },
{
    let list = written(line, row, 0, phase, params, ColorState::Unset);
    lemma_render_round_trip(line, row, phase, params);
    lemma_written(line, row, 0, phase, params, ColorState::Unset);
    let all = sequences(rendered(line, row, phase, params));
    assert forall|i: int| 0 <= i < all.len() - 1 implies {
        &&& #[trigger] all[i] != reset_sequence()
        &&& all[i] != all[i + 1]
    } by {
        if i + 1 < list.len() {
            assert(all[i + 1] == list[i + 1]);
        }
    }
}

/// The sequences written for the lines of a text all end in `m`, the last
/// of them is a reset, and only resets stand twice in a row.
pub proof fn lemma_written_lines(input: Seq<u8>, row: nat, phase: nat, params: Parameters)
    ensures
        forall|i: int|
            0 <= i < written_lines(input, row, phase, params).len() ==> (#[trigger] written_lines(
                input,
                row,
                phase,
                params,
            )[i]).last() == FINAL_M,
        forall|i: int|
            0 <= i < written_lines(input, row, phase, params).len() - 1 && written_lines(
                input,
                row,
                phase,
                params,
            )[i] == #[trigger] written_lines(input, row, phase, params)[i + 1] ==> written_lines(
                input,
                row,
                phase,
                params,
            )[i] == reset_sequence(),
        input.len() > 0 ==> written_lines(input, row, phase, params).len() > 0 && written_lines(
            input,
            row,
            phase,
            params,
        ).last() == reset_sequence(),
    decreases input.len(),
{
    let all = written_lines(input, row, phase, params);
    if input.len() > 0 {
        lemma_first_line_bounds(input);
        let n = first_line_len(input) as int;
        let list = written(input.take(n), row, 0, phase, params, ColorState::Unset);
        let line = list.push(reset_sequence());
        let below = written_lines(input.skip(n), row + 1, phase, params);
        lemma_written(input.take(n), row, 0, phase, params, ColorState::Unset);
        lemma_written_lines(input.skip(n), row + 1, phase, params);
        assert forall|i: int| 0 <= i < all.len() implies (#[trigger] all[i]).last()
            == FINAL_M by {
            if i < list.len() {
                assert(all[i] == list[i]);
            } else if i >= line.len() {
                assert(all[i] == below[i - line.len()]);
            }
        }
        assert forall|i: int| 0 <= i < all.len() - 1 && all[i] == #[trigger] all[i
            + 1] implies all[i] == reset_sequence() by {
            if i + 1 < list.len() {
                assert(all[i + 1] == list[i + 1]);
            } else if i + 1 == list.len() {
                assert(all[i + 1] == reset_sequence());
            } else if i >= line.len() {
                let at = i - line.len();
                assert(all[i + 1] == below[at + 1]);
            }
        }
        if input.skip(n).len() == 0 {
            assert(all =~= line);
        } else {
            assert(all.last() == below.last());
        }
    }
}

/// How often `sequence` stands in `list`.
pub open spec fn occurrences(list: Seq<Seq<u8>>, sequence: Seq<u8>) -> nat
    decreases list.len(),
{
    if list.len() == 0 {
        0
    } else {
        occurrences(list.drop_last(), sequence) + if list.last() == sequence {
            1nat
        } else {
            0nat
        }
    }
}

/// Number of lines in `input`; a last line without line feed counts.
pub open spec fn line_count(input: Seq<u8>) -> nat
    decreases input.len(),
{
    if input.len() == 0 {
        0
    } else {
        proof {
            lemma_first_line_bounds(input);
        }
        1 + line_count(input.skip(first_line_len(input) as int))
    }
}

/// The occurrences in two lists add up in the list of both.
proof fn lemma_occurrences_add(first: Seq<Seq<u8>>, second: Seq<Seq<u8>>, sequence: Seq<u8>)
    ensures
        occurrences(first + second, sequence) == occurrences(first, sequence) + occurrences(
            second,
            sequence,
        ),
    decreases second.len(),
{
    if second.len() == 0 {
        assert(first + second =~= first);
    } else {
        assert((first + second).drop_last() =~= first + second.drop_last());
        lemma_occurrences_add(first, second.drop_last(), sequence);
    }
}

/// What stands nowhere in a list occurs zero times.
proof fn lemma_occurrences_none(list: Seq<Seq<u8>>, sequence: Seq<u8>)
    requires
        forall|i: int| 0 <= i < list.len() ==> #[trigger] list[i] != sequence,
    ensures
        occurrences(list, sequence) == 0,
    decreases list.len(),
{
    if list.len() > 0 {
        lemma_occurrences_none(list.drop_last(), sequence);
    }
}

/// The sequences written for the lines of a text hold one reset for each
/// line.
proof fn lemma_resets_written(input: Seq<u8>, row: nat, phase: nat, params: Parameters)
    ensures
        occurrences(written_lines(input, row, phase, params), reset_sequence()) == line_count(
            input,
        ),
    decreases input.len(),
{
    if input.len() > 0 {
        lemma_first_line_bounds(input);
        let n = first_line_len(input) as int;
        let list = written(input.take(n), row, 0, phase, params, ColorState::Unset);
        let below = written_lines(input.skip(n), row + 1, phase, params);
        lemma_written(input.take(n), row, 0, phase, params, ColorState::Unset);
        lemma_occurrences_none(list, reset_sequence());
        assert(list.push(reset_sequence()).drop_last() =~= list);
        lemma_occurrences_add(list.push(reset_sequence()), below, reset_sequence());
        lemma_resets_written(input.skip(n), row + 1, phase, params);
    }
}

/// A pass over a plain text holds one reset for each of its lines, and one
/// for a text without lines: every line has its own, and none is added.
pub proof fn lemma_one_reset_per_line(input: Seq<u8>, phase: nat, params: Parameters)
    requires
        is_plain(input),
    ensures
        occurrences(sequences(pass(input, phase, params)), reset_sequence()) == if input.len()
            == 0 {
            1
        } else {
            line_count(input)
        },
{
    let none = Seq::<u8>::empty();
    if input.len() == 0 {
        lemma_reset_is_sequence(none);
        lemma_read_sequence(reset_sequence(), none);
        let list = sequences(pass(input, phase, params));
        assert(occurrences(list.drop_last(), reset_sequence()) == 0);
    } else {
        lemma_read_lines(input, 0, phase, params, none);
        lemma_resets_written(input, 0, phase, params);
    }
}

/// A pass ends in the bytes of a reset, whatever the text.
pub proof fn lemma_pass_ends_in_reset(input: Seq<u8>, phase: nat, params: Parameters)
    ensures
        pass(input, phase, params).len() >= 4,
        pass(input, phase, params).skip(pass(input, phase, params).len() - 4)
            == reset_sequence(),
{
    if input.len() == 0 {
        assert(reset_sequence().skip(0) =~= reset_sequence());
    } else {
        lemma_lines_end_in_reset(input, 0, phase, params);
    }
}

proof fn lemma_lines_end_in_reset(input: Seq<u8>, row: nat, phase: nat, params: Parameters)
    requires
        input.len() > 0,
    ensures
        rendered_lines(input, row, phase, params).len() >= 4,
        rendered_lines(input, row, phase, params).skip(
            rendered_lines(input, row, phase, params).len() - 4,
        ) == reset_sequence(),
    decreases input.len(),
{
    lemma_first_line_bounds(input);
    let n = first_line_len(input) as int;
    let all = rendered_lines(input, row, phase, params);
    let line = rendered(input.take(n), row, phase, params);
    let below = rendered_lines(input.skip(n), row + 1, phase, params);
    assert(all == line + below);
    if input.skip(n).len() == 0 {
        assert(below.len() == 0);
        assert(all.skip(all.len() - 4) =~= reset_sequence());
    } else {
        lemma_lines_end_in_reset(input.skip(n), row + 1, phase, params);
        assert(all.skip(all.len() - 4) =~= below.skip(below.len() - 4));
    }
}

/// Of the escape sequences in a pass over a plain text, every one ends in
/// `m`, so that none moves the cursor or switches the screen; the last one
/// is a reset; and only resets stand twice in a row.
pub proof fn lemma_pass_sequences(input: Seq<u8>, phase: nat, params: Parameters)
    requires
        is_plain(input),
    ensures
        sequences(pass(input, phase, params)).len() > 0,
        sequences(pass(input, phase, params)).last() == reset_sequence(),
        forall|i: int|
            0 <= i < sequences(pass(input, phase, params)).len() ==> (#[trigger] sequences(
                pass(input, phase, params),
            )[i]).last() == FINAL_M,
        forall|i: int|
            0 <= i < sequences(pass(input, phase, params)).len() - 1 && sequences(
                pass(input, phase, params),
            )[i] == #[trigger] sequences(pass(input, phase, params))[i + 1] ==> sequences(
                pass(input, phase, params),
            )[i] == reset_sequence(),
{
    let none = Seq::<u8>::empty();
    if input.len() == 0 {
        lemma_reset_is_sequence(none);
        lemma_read_sequence(reset_sequence(), none);
    } else {
        lemma_read_lines(input, 0, phase, params, none);
        lemma_written_lines(input, 0, phase, params);
    }
}

/// An ending is found in the same place whether or not bytes that start
/// with an escape character follow: no ending runs across one.
proof fn lemma_ending_stops(bytes: Seq<u8>, tail: Seq<u8>)
    requires
        tail.len() > 0,
        tail[0] == ESC,
    ensures
        ending_len(bytes + tail) == ending_len(bytes),
    decreases bytes.len(),
{
    let whole = bytes + tail;
    if bytes.len() == 0 {
        assert(whole =~= tail);
    } else {
        assert(whole[0] == bytes[0]);
        assert(whole.skip(1) =~= bytes.skip(1) + tail);
        lemma_ending_stops(bytes.skip(1), tail);
    }
}

/// A body is found in the same place whether or not bytes that start with
/// an escape character follow.
proof fn lemma_body_stops(bytes: Seq<u8>, tail: Seq<u8>)
    requires
        tail.len() > 0,
        tail[0] == ESC,
    ensures
        body_len(bytes + tail) == body_len(bytes),
    decreases bytes.len(),
{
    let whole = bytes + tail;
    if bytes.len() == 0 {
        assert(whole =~= tail);
        lemma_ending_stops(bytes, tail);
    } else {
        assert(whole[0] == bytes[0]);
        assert(whole.skip(1) =~= bytes.skip(1) + tail);
        lemma_body_stops(bytes.skip(1), tail);
        lemma_ending_stops(bytes, tail);
    }
}

/// Reading stops at an escape character: what comes before one is read as
/// if nothing followed, and what comes from it on as if nothing came before.
pub proof fn lemma_read_split(bytes: Seq<u8>, tail: Seq<u8>)
    requires
        tail.len() > 0,
        tail[0] == ESC,
    ensures
        stripped(bytes + tail) == stripped(bytes) + stripped(tail),
        sequences(bytes + tail) == sequences(bytes) + sequences(tail),
    decreases bytes.len(),
{
    let whole = bytes + tail;
    if bytes.len() == 0 {
        assert(whole =~= tail);
        assert(stripped(bytes) + stripped(tail) =~= stripped(tail));
        assert(sequences(bytes) + sequences(tail) =~= sequences(tail));
    } else {
        assert(whole[0] == bytes[0]);
        if bytes.len() >= 2 {
            assert(whole.skip(2) =~= bytes.skip(2) + tail);
            lemma_body_stops(bytes.skip(2), tail);
        } else {
            assert(whole[1] == ESC);
        }
        let n = sequence_len(bytes) as int;
        assert(sequence_len(whole) == n);
        lemma_sequence_bounds(bytes);
        if n > 0 {
            assert(whole.skip(n) =~= bytes.skip(n) + tail);
            assert(whole.take(n) =~= bytes.take(n));
            lemma_read_split(bytes.skip(n), tail);
            assert(seq![bytes.take(n)] + (sequences(bytes.skip(n)) + sequences(tail)) =~= sequences(
                bytes,
            ) + sequences(tail));
        } else {
            assert(whole.skip(1) =~= bytes.skip(1) + tail);
            lemma_read_split(bytes.skip(1), tail);
            assert(seq![bytes[0]] + (stripped(bytes.skip(1)) + stripped(tail)) =~= stripped(bytes)
                + stripped(tail));
        }
    }
}

/// Painting drops no byte: a painted line is at least as long as the line.
proof fn lemma_paint_len(
    line: Seq<u8>,
    row: nat,
    column: nat,
    phase: nat,
    params: Parameters,
    previous: ColorState,
)
    ensures
        paint(line, row, column, phase, params, previous).len() >= line.len(),
    decreases line.len(),
{
    if line.len() > 0 {
        let here = column_after(column, line[0]);
        let ink = ink_after(previous, line[0], row, here, phase, params);
        lemma_paint_len(line.skip(1), row, here, phase, params, ink);
    }
}

/// The painted bytes of a plain line do not end in a reset: the reset that
/// ends the rendered line is the only one at its end.
pub proof fn lemma_line_has_one_trailing_reset(
    line: Seq<u8>,
    row: nat,
    column: nat,
    phase: nat,
    params: Parameters,
    previous: ColorState,
)
    requires
        is_plain(line),
    ensures
        !ends_in_reset(paint(line, row, column, phase, params, previous)),
{
    let painted = paint(line, row, column, phase, params, previous);
    let list = written(line, row, column, phase, params, previous);
    let none = Seq::<u8>::empty();
    let reset = reset_sequence();
    if ends_in_reset(painted) {
        let front = painted.take(painted.len() - 4);
        assert(painted =~= front + reset);
        lemma_read_painted(line, row, column, phase, params, previous, none);
        assert(painted + reset + none =~= front + (reset + reset));
        lemma_read_split(front, reset + reset);
        lemma_reset_is_sequence(reset);
        lemma_read_sequence(reset, reset);
        lemma_reset_is_sequence(none);
        lemma_read_sequence(reset, none);
        assert(reset + none =~= reset);
        assert(sequences(none) =~= Seq::<Seq<u8>>::empty());
        let read = sequences(front) + (seq![reset] + (seq![reset] + sequences(none)));
        assert(list + seq![reset] + sequences(none) == read);
        assert(read.len() == sequences(front).len() + 2);
        assert(list.len() == sequences(front).len() + 1);
        assert(read[list.len() - 1] == reset);
        assert(list[list.len() - 1] == reset);
        lemma_written(line, row, column, phase, params, previous);
    }
}

/// Bytes that do not end in a reset do not come to end in one by what
/// stands in front of them, if that ends in `m`.
proof fn lemma_no_reset_across(before: Seq<u8>, kept: Seq<u8>)
    requires
        before.len() > 0,
        before.last() == FINAL_M,
        kept.len() > 0,
        !ends_in_reset(kept),
    ensures
        !ends_in_reset(before + kept),
{
    let whole = before + kept;
    if ends_in_reset(whole) {
        let end = whole.skip(whole.len() - 4);
        if kept.len() >= 4 {
            assert(end =~= kept.skip(kept.len() - 4));
        } else {
            let at = 3 - kept.len();
            assert(end[at] == whole[before.len() - 1]);
            assert(whole[before.len() - 1] == before.last());
            assert(reset_sequence()[at] != FINAL_M);
        }
    }
}

/// The rendered lines of a plain text end in one reset and not in two.
proof fn lemma_lines_have_one_trailing_reset(
    input: Seq<u8>,
    row: nat,
    phase: nat,
    params: Parameters,
)
    requires
        input.len() > 0,
        is_plain(input),
    ensures
        rendered_lines(input, row, phase, params).len() >= 5,
        ends_in_reset(rendered_lines(input, row, phase, params)),
        !ends_in_reset(
            rendered_lines(input, row, phase, params).take(
                rendered_lines(input, row, phase, params).len() - 4,
            ),
        ),
    decreases input.len(),
{
    lemma_first_line_bounds(input);
    let n = first_line_len(input) as int;
    let line = input.take(n);
    let rest = input.skip(n);
    let all = rendered_lines(input, row, phase, params);
    let first = rendered(line, row, phase, params);
    let painted = paint(line, row, 0, phase, params, ColorState::Unset);
    let below = rendered_lines(rest, row + 1, phase, params);
    lemma_plain_parts(input, n);
    lemma_paint_len(line, row, 0, phase, params, ColorState::Unset);
    lemma_line_has_one_trailing_reset(line, row, 0, phase, params, ColorState::Unset);
    assert(all == first + below);
    assert(first.len() == painted.len() + 4);
    assert(first.last() == FINAL_M);
    if rest.len() == 0 {
        assert(below.len() == 0);
        assert(all =~= first);
        assert(first.skip(first.len() - 4) =~= reset_sequence());
        assert(first.take(first.len() - 4) =~= painted);
    } else {
        lemma_lines_have_one_trailing_reset(rest, row + 1, phase, params);
        let kept = below.take(below.len() - 4);
        assert(all.skip(all.len() - 4) =~= below.skip(below.len() - 4));
        assert(all.take(all.len() - 4) =~= first + kept);
        lemma_no_reset_across(first, kept);
    }
}

/// A pass over a plain text ends in exactly one reset: its last four bytes
/// are a reset, and the bytes before them do not end in another.
pub proof fn lemma_pass_has_one_trailing_reset(input: Seq<u8>, phase: nat, params: Parameters)
    requires
        is_plain(input),
    ensures
        ends_in_reset(pass(input, phase, params)),
        !ends_in_reset(pass(input, phase, params).take(pass(input, phase, params).len() - 4)),
{
    if input.len() == 0 {
        assert(reset_sequence().skip(0) =~= reset_sequence());
    } else {
        lemma_lines_have_one_trailing_reset(input, 0, phase, params);
    }
}

} // verus!
