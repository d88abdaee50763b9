//! Colouring of lines: every visible character gets the colour of its place
//! in front of its own bytes, which pass through unchanged, and every line
//! ends in a reset.
//!
//! A line is a sequence of bytes. A byte that continues a multi-byte UTF-8
//! character never starts a new column, so that no character is split.
//! Spaces and control characters advance the column but get no colour.

use crate::color::{color_at, compute};
use crate::escape::{
    digits, mode_of, push_decimal, push_reset, reset_sequence, resolve, transition, ColorMode,
    ColorState, Encoder, BRACKET, ESC,
};
use crate::opts::{Opts, Parameters};
use vstd::prelude::*;
use vstd::slice::slice_subrange;
use vstd::utf8::{
    is_char_boundary, is_char_boundary_iff_not_is_continuation_byte, is_continuation_byte,
    valid_utf8,
};

verus! {

/// The line feed that ends a line.
pub const NEWLINE: u8 = 0x0a;

/// The carriage return that moves the cursor to the first column.
pub const CARRIAGE_RETURN: u8 = 0x0d;

/// `A`, which ends the sequence that moves the cursor up.
pub const FINAL_UP: u8 = 0x41;

/// The byte starts a character that shows: neither a continuation, nor a
/// space, nor a control character.
pub open spec fn is_glyph(byte: u8) -> bool {
    byte > 0x20 && byte != 0x7f && !is_continuation_byte(byte)
}

/// The column of the character that `byte` belongs to, where `column`
/// characters came before it on the line: the first character has column 1.
pub open spec fn column_after(column: nat, byte: u8) -> nat {
    if is_continuation_byte(byte) {
        column
    } else {
        column + 1
    }
}

/// In text that is valid UTF-8 a new column starts with every character and
/// nowhere else: no character is split, and none is counted twice.
pub proof fn lemma_columns_follow_characters(line: Seq<u8>, at: int, column: nat)
    requires
        valid_utf8(line),
        0 <= at < line.len(),
    ensures
        column_after(column, line[at]) == column + 1 <==> is_char_boundary(line, at),
        column_after(column, line[at]) == column <==> !is_char_boundary(line, at),
        is_glyph(line[at]) ==> is_char_boundary(line, at),
{
    is_char_boundary_iff_not_is_continuation_byte(line, at);
}

/// The colour in force once `byte` is written: that of its place if it
/// starts a visible character, else the one before.
pub open spec fn ink_after(
    previous: ColorState,
    byte: u8,
    row: nat,
    column: nat,
    phase: nat,
    params: Parameters,
) -> ColorState {
    if is_glyph(byte) {
        resolve(color_at(row, column, phase, params), mode_of(params.truecolor))
    } else {
        previous
    }
}

/// The bytes of `line` with the escape sequences that colour them, for a
/// line that continues after `column` characters with `previous` in force.
pub open spec fn paint(
    line: Seq<u8>,
    row: nat,
    column: nat,
    phase: nat,
    params: Parameters,
    previous: ColorState,
) -> Seq<u8>
    decreases line.len(),
{
    if line.len() == 0 {
        Seq::empty()
    } else {
        let byte = line[0];
        let here = column_after(column, byte);
        let ink = ink_after(previous, byte, row, here, phase, params);
        transition(previous, ink, params.invert) + seq![byte] + paint(
            line.skip(1),
            row,
            here,
            phase,
            params,
            ink,
        )
    }
}

/// A rendered line: its coloured bytes, then one reset.
pub open spec fn rendered(line: Seq<u8>, row: nat, phase: nat, params: Parameters) -> Seq<u8> {
    paint(line, row, 0, phase, params, ColorState::Unset) + reset_sequence()
}

/// Length of the first line of `input`, its line feed included; the whole
/// length where there is no line feed.
pub open spec fn first_line_len(input: Seq<u8>) -> nat
    decreases input.len(),
{
    if input.len() == 0 {
        0
    } else if input[0] == NEWLINE {
        1
    } else {
        1 + first_line_len(input.skip(1))
    }
}

/// The first line of a text that is not empty is not empty, and lies in it.
pub proof fn lemma_first_line_bounds(input: Seq<u8>)
    requires
        input.len() > 0,
    ensures
        1 <= first_line_len(input) <= input.len(),
    decreases input.len(),
{
    if input[0] != NEWLINE {
        if input.len() > 1 {
            lemma_first_line_bounds(input.skip(1));
        } else {
            assert(first_line_len(input.skip(1)) == 0);
        }
    }
}

/// All lines of `input` rendered one after the other, the first as line
/// `row`. Each line keeps its own line feed, in front of its reset.
pub open spec fn rendered_lines(input: Seq<u8>, row: nat, phase: nat, params: Parameters) -> Seq<
    u8,
>
    decreases input.len(),
{
    if input.len() == 0 {
        Seq::empty()
    } else {
        let n = first_line_len(input) as int;
        proof {
            lemma_first_line_bounds(input);
        }
        rendered(input.take(n), row, phase, params) + rendered_lines(
            input.skip(n),
            row + 1,
            phase,
            params,
        )
    }
}

/// One pass over a whole text: its lines rendered from line 0 on. An empty
/// text gives a lone reset, so that every pass ends in one.
pub open spec fn pass(input: Seq<u8>, phase: nat, params: Parameters) -> Seq<u8> {
    if input.len() == 0 {
        reset_sequence()
    } else {
        rendered_lines(input, 0, phase, params)
    }
}

/// Number of line feeds in `input`.
pub open spec fn newlines(input: Seq<u8>) -> nat
    decreases input.len(),
{
    if input.len() == 0 {
        0
    } else {
        newlines(input.drop_last()) + if input.last() == NEWLINE {
            1nat
        } else {
            0nat
        }
    }
}

/// The bytes that take the cursor back to where a pass began, `up` lines
/// higher: a carriage return, then `ESC[<up>A` unless `up` is zero.
pub open spec fn rewind_sequence(up: nat) -> Seq<u8> {
    if up == 0 {
        seq![CARRIAGE_RETURN]
    } else {
        seq![CARRIAGE_RETURN, ESC, BRACKET] + digits(up) + seq![FINAL_UP]
    }
}

/// One frame of an animation: a pass over the text, and in front of it,
/// for every frame but the first, the bytes that take the cursor back to
/// where the frame before began.
pub open spec fn frame_bytes(first: bool, input: Seq<u8>, phase: nat, params: Parameters) -> Seq<
    u8,
> {
    if first {
        pass(input, phase, params)
    } else {
        rewind_sequence(newlines(input)) + pass(input, phase, params)
    }
}

fn glyph(byte: u8) -> (shows: bool)
    ensures
        shows == is_glyph(byte),
{
    byte > 0x20 && byte != 0x7f && !(0x80 <= byte && byte < 0xc0)
}

/// Appends the rendering of `line` as line `line_index`.
pub fn render_into(
    out: &mut Vec<u8>,
    line: &[u8],
    line_index: u64,
    phase: u64,
    params: &Parameters,
)
    requires
        params.valid(),
    ensures
        final(out)@ == old(out)@ + rendered(line@, line_index as nat, phase as nat, *params),
{
    let mode = if params.truecolor {
        ColorMode::TrueColor
    } else {
        ColorMode::Indexed
    };
    let mut encoder = Encoder::new(mode, params.invert);
    let mut column: u64 = 0;
    let mut i: usize = 0;
    let ghost whole = paint(
        line@,
        line_index as nat,
        0,
        phase as nat,
        *params,
        ColorState::Unset,
    );
    assert(line@.skip(0) =~= line@);
    while i < line.len()
        invariant
            params.valid(),
            i <= line.len(),
            column <= i,
            encoder.mode == mode_of(params.truecolor),
            encoder.invert == params.invert,
            whole == paint(line@, line_index as nat, 0, phase as nat, *params, ColorState::Unset),
            out@ + paint(
                line@.skip(i as int),
                line_index as nat,
                column as nat,
                phase as nat,
                *params,
                encoder.previous,
            ) == old(out)@ + whole,
        decreases line.len() - i,
    {
        let byte: u8 = line[i];
        if !(0x80 <= byte && byte < 0xc0) {
            column = column + 1;
        }
        if glyph(byte) {
            let rgb = compute(line_index, column, phase, params);
            encoder.encode(rgb, out);
        }
        out.push(byte);
        assert(line@.skip(i as int).skip(1) =~= line@.skip(i + 1));
        i = i + 1;
    }
    encoder.reset(out);
}

/// Renders one line: every visible character of `line` behind the escape
/// sequence of its colour, where that differs from the colour before it,
/// all other bytes as they are, and one reset at the end.
pub fn render(line: &[u8], line_index: u64, phase: u64, params: &Parameters) -> (out: Vec<u8>)
    requires
        params.valid(),
    ensures
        out@ == rendered(line@, line_index as nat, phase as nat, *params),
{
    let mut out: Vec<u8> = Vec::new();
    render_into(&mut out, line, line_index, phase, params);
    out
}

/// The index just behind the line that starts at `start`.
pub fn line_end(input: &[u8], start: usize) -> (end: usize)
    requires
        start < input.len(),
    ensures
        start < end <= input.len(),
        end - start == first_line_len(input@.skip(start as int)),
{
    let mut end: usize = start;
    while end < input.len() && input[end] != NEWLINE
        invariant
            start <= end <= input.len(),
            first_line_len(input@.skip(start as int)) == (end - start) + first_line_len(
                input@.skip(end as int),
            ),
        decreases input.len() - end,
    {
        assert(input@.skip(end as int).skip(1) =~= input@.skip(end + 1));
        end = end + 1;
    }
    if end < input.len() {
        end + 1
    } else {
        proof {
            lemma_first_line_bounds(input@.skip(start as int));
        }
        end
    }
}

/// Renders a whole text in one pass at phase offset `phase`: line after
/// line, each with its own reset behind its line feed.
pub fn render_pass(input: &[u8], phase: u64, params: &Parameters) -> (out: Vec<u8>)
    requires
        params.valid(),
    ensures
        out@ == pass(input@, phase as nat, *params),
{
    let mut out: Vec<u8> = Vec::new();
    if input.len() == 0 {
        push_reset(&mut out);
        return out;
    }
    let mut start: usize = 0;
    let mut row: u64 = 0;
    assert(input@.skip(0) =~= input@);
    while start < input.len()
        invariant
            params.valid(),
            start <= input.len(),
            row <= start,
            out@ + rendered_lines(input@.skip(start as int), row as nat, phase as nat, *params)
                == rendered_lines(input@, 0, phase as nat, *params),
        decreases input.len() - start,
    {
        let end: usize = line_end(input, start);
        let line = slice_subrange(input, start, end);
        let ghost rest = input@.skip(start as int);
        render_into(&mut out, line, row, phase, params);
        assert(rest.take(end - start) =~= line@);
        assert(rest.skip(end - start) =~= input@.skip(end as int));
        start = end;
        row = row + 1;
    }
    out
}

/// Makes the text from the input pretty colors: one pass over `input` with
/// the parameters of `opts`, at phase offset zero.
pub fn lolify(input: &[u8], opts: &Opts) -> (out: Vec<u8>)
    requires
        opts.valid(),
    ensures
        out@ == pass(input@, 0, opts.spec_parameters()),
{
    let params = opts.parameters();
    render_pass(input, 0, &params)
}

/// The bytes that take the cursor from the end of a pass over `input` back
/// to its start, so that the next frame of an animation overwrites it.
pub fn rewind(input: &[u8]) -> (out: Vec<u8>)
    ensures
        out@ == rewind_sequence(newlines(input@)),
{
    let mut up: u64 = 0;
    let mut i: usize = 0;
    while i < input.len()
        invariant
            i <= input.len(),
            up <= i,
            up == newlines(input@.take(i as int)),
        decreases input.len() - i,
    {
        assert(input@.take(i + 1).drop_last() =~= input@.take(i as int));
        if input[i] == NEWLINE {
            up = up + 1;
        }
        i = i + 1;
    }
    assert(input@.take(input@.len() as int) =~= input@);
    let mut out: Vec<u8> = Vec::new();
    out.push(CARRIAGE_RETURN);
    if up > 0 {
        out.push(ESC);
        out.push(BRACKET);
        push_decimal(&mut out, up);
        out.push(FINAL_UP);
    }
    out
}

/// Renders one frame of an animation at phase offset `phase`: the first
/// frame is a pass over `input`, every later one goes back over the frame
/// before and then passes over `input` again.
pub fn frame(first: bool, input: &[u8], phase: u64, params: &Parameters) -> (out: Vec<u8>)
    requires
        params.valid(),
    ensures
        out@ == frame_bytes(first, input@, phase as nat, *params),
{
    let mut drawn = render_pass(input, phase, params);
    if first {
        drawn
    } else {
        let mut out = rewind(input);
        out.append(&mut drawn);
        out
    }
}

} // verus!
