//! Escape sequences: the bytes that set a colour or reset the terminal, and
//! the encoder that writes one only when the colour changes.

use crate::color::{wheel, Rgb, TURN};
use crate::palette::{distance, lemma_nearest, nearest, palette_color, quantize, CUBE_START};
use vstd::prelude::*;

verus! {

/// The escape character that opens every sequence.
pub const ESC: u8 = 0x1b;

/// `[`, which follows the escape character.
pub const BRACKET: u8 = 0x5b;

/// `;`, which separates the numbers of a sequence.
pub const SEMICOLON: u8 = 0x3b;

/// `m`, which ends a sequence that sets colours or attributes.
pub const FINAL_M: u8 = 0x6d;

/// The digit `0`.
pub const DIGIT_ZERO: u8 = 0x30;

/// Which of the two colours of a cell a sequence sets.
#[derive(Clone, Copy, Debug, PartialEq, Eq, Structural)]
pub enum Layer {
    Foreground,
    Background,
}

/// How colours are written: as an index into the 8-bit palette, or as three
/// channels of 24-bit colour.
#[derive(Clone, Copy, Debug, PartialEq, Eq, Structural)]
pub enum ColorMode {
    Indexed,
    TrueColor,
}

/// The colour that the terminal was last told to use, as it was written.
#[derive(Clone, Copy, Debug, PartialEq, Eq, Structural)]
pub enum ColorState {
    /// No colour since the start of the stream or the last reset.
    Unset,
    Indexed(u8),
    TrueColor(Rgb),
}

/// The decimal digits of `n`, most significant first.
pub open spec fn digits(n: nat) -> Seq<u8>
    decreases n,
{
    if n < 10 {
        seq![(DIGIT_ZERO + n) as u8]
    } else {
        digits(n / 10).push((DIGIT_ZERO + n % 10) as u8)
    }
}

/// `3` for the foreground, `4` for the background.
pub open spec fn layer_digit(layer: Layer) -> u8 {
    match layer {
        Layer::Foreground => 0x33,
        Layer::Background => 0x34,
    }
}

/// `ESC[0m`: back to the terminal's own colours and attributes.
pub open spec fn reset_sequence() -> Seq<u8> {
    seq![ESC, BRACKET, DIGIT_ZERO, FINAL_M]
}

/// `ESC[38;5;Nm` or `ESC[48;5;Nm`.
pub open spec fn indexed_sequence(layer: Layer, index: u8) -> Seq<u8> {
    seq![ESC, BRACKET, layer_digit(layer), 0x38, SEMICOLON, 0x35, SEMICOLON] + digits(
        index as nat,
    ) + seq![FINAL_M]
}

/// `ESC[38;2;R;G;Bm` or `ESC[48;2;R;G;Bm`.
pub open spec fn truecolor_sequence(layer: Layer, rgb: Rgb) -> Seq<u8> {
    seq![ESC, BRACKET, layer_digit(layer), 0x38, SEMICOLON, 0x32, SEMICOLON] + digits(
        rgb.r as nat,
    ) + seq![SEMICOLON] + digits(rgb.g as nat) + seq![SEMICOLON] + digits(rgb.b as nat)
        + seq![FINAL_M]
}

/// The sequence that sets `layer` to `ink`; nothing for no colour.
pub open spec fn paint_sequence(layer: Layer, ink: ColorState) -> Seq<u8> {
    match ink {
        ColorState::Unset => Seq::empty(),
        ColorState::Indexed(index) => indexed_sequence(layer, index),
        ColorState::TrueColor(rgb) => truecolor_sequence(layer, rgb),
    }
}

/// The colour as `mode` writes it: quantised to the palette, or exact.
pub open spec fn resolve(rgb: Rgb, mode: ColorMode) -> ColorState {
    match mode {
        ColorMode::Indexed => ColorState::Indexed(nearest(rgb)),
        ColorMode::TrueColor => ColorState::TrueColor(rgb),
    }
}

/// Black in the way `ink` is written: the foreground of inverted text, dark
/// against every colour of the wheel.
pub open spec fn contrast(ink: ColorState) -> ColorState {
    match ink {
        ColorState::Unset => ColorState::Unset,
        ColorState::Indexed(_) => ColorState::Indexed(CUBE_START),
        ColorState::TrueColor(_) => ColorState::TrueColor(Rgb { r: 0, g: 0, b: 0 }),
    }
}

/// What is written to go from `previous` to `ink`: nothing when the colour
/// stays; else the foreground sequence, or with `invert` the background
/// sequence, after a black foreground where no colour was set before.
pub open spec fn transition(previous: ColorState, ink: ColorState, invert: bool) -> Seq<u8> {
    if ink == previous {
        Seq::empty()
    } else if !invert {
        paint_sequence(Layer::Foreground, ink)
    } else if previous is Unset {
        paint_sequence(Layer::Foreground, contrast(ink)) + paint_sequence(Layer::Background, ink)
    } else {
        paint_sequence(Layer::Background, ink)
    }
}

/// The colour mode that the `truecolor` switch selects.
pub open spec fn mode_of(truecolor: bool) -> ColorMode {
    if truecolor {
        ColorMode::TrueColor
    } else {
        ColorMode::Indexed
    }
}

/// Appends the decimal digits of `n`.
pub fn push_decimal(out: &mut Vec<u8>, n: u64)
    ensures
        final(out)@ == old(out)@ + digits(n as nat),
    decreases n,
{
    if n >= 10 {
        push_decimal(out, n / 10);
    }
    out.push(DIGIT_ZERO + (n % 10) as u8);
}

/// Appends `ESC[0m`.
pub fn push_reset(out: &mut Vec<u8>)
    ensures
        final(out)@ == old(out)@ + reset_sequence(),
{
    out.push(ESC);
    out.push(BRACKET);
    out.push(DIGIT_ZERO);
    out.push(FINAL_M);
}

fn push_opening(out: &mut Vec<u8>, layer: Layer, kind: u8)
    ensures
        final(out)@ == old(out)@ + seq![
            ESC,
            BRACKET,
            layer_digit(layer),
            0x38,
            SEMICOLON,
            kind,
            SEMICOLON,
        ],
{
    out.push(ESC);
    out.push(BRACKET);
    match layer {
        Layer::Foreground => out.push(0x33),
        Layer::Background => out.push(0x34),
    }
    out.push(0x38);
    out.push(SEMICOLON);
    out.push(kind);
    out.push(SEMICOLON);
}

/// Appends the sequence that sets `layer` to `ink`.
pub fn push_paint(out: &mut Vec<u8>, layer: Layer, ink: ColorState)
    ensures
        final(out)@ == old(out)@ + paint_sequence(layer, ink),
{
    match ink {
        ColorState::Unset => {
            assert(out@ =~= old(out)@ + paint_sequence(layer, ink));
        },
        ColorState::Indexed(index) => {
            push_opening(out, layer, 0x35);
            push_decimal(out, index as u64);
            out.push(FINAL_M);
        },
        ColorState::TrueColor(rgb) => {
            push_opening(out, layer, 0x32);
            push_decimal(out, rgb.r as u64);
            out.push(SEMICOLON);
            push_decimal(out, rgb.g as u64);
            out.push(SEMICOLON);
            push_decimal(out, rgb.b as u64);
            out.push(FINAL_M);
        },
    }
}

/// Writes colours as escape sequences and remembers the last one written,
/// so that a colour that stays is not written again.
#[derive(Clone, Copy, Debug, PartialEq, Eq, Structural)]
pub struct Encoder {
    pub mode: ColorMode,
    /// Colour the background and keep the text black.
    pub invert: bool,
    /// The colour in force on the terminal.
    pub previous: ColorState,
}

impl Encoder {
    /// An encoder at the start of a stream: no colour is set yet.
    pub fn new(mode: ColorMode, invert: bool) -> (encoder: Encoder)
        ensures
            encoder == (Encoder { mode, invert, previous: ColorState::Unset }),
    {
        Encoder { mode, invert, previous: ColorState::Unset }
    }

    /// The colour as this encoder's mode writes it.
    pub fn resolved(&self, rgb: Rgb) -> (ink: ColorState)
        ensures
            ink == resolve(rgb, self.mode),
    {
        match self.mode {
            ColorMode::Indexed => ColorState::Indexed(quantize(rgb)),
            ColorMode::TrueColor => ColorState::TrueColor(rgb),
        }
    }

    /// Makes `rgb` the colour in force. Appends the escape sequence for it
    /// if it differs, as written in this mode, from the colour in force;
    /// appends nothing if it does not.
    pub fn encode(&mut self, rgb: Rgb, out: &mut Vec<u8>)
        ensures
            final(self).mode == old(self).mode,
            final(self).invert == old(self).invert,
            final(self).previous == resolve(rgb, old(self).mode),
            final(out)@ == old(out)@ + transition(
                old(self).previous,
                resolve(rgb, old(self).mode),
                old(self).invert,
            ),
    {
        let ink = self.resolved(rgb);
        if ink != self.previous {
            if !self.invert {
                push_paint(out, Layer::Foreground, ink);
            } else {
                match self.previous {
                    ColorState::Unset => {
                        let dark = match ink {
                            ColorState::Indexed(_) => ColorState::Indexed(CUBE_START),
                            _ => ColorState::TrueColor(Rgb { r: 0, g: 0, b: 0 }),
                        };
                        push_paint(out, Layer::Foreground, dark);
                    },
                    _ => {},
                }
                push_paint(out, Layer::Background, ink);
            }
            self.previous = ink;
        } else {
            assert(out@ =~= old(out)@ + transition(old(self).previous, ink, old(self).invert));
        }
    }

    /// Appends `ESC[0m` and forgets the colour in force.
    pub fn reset(&mut self, out: &mut Vec<u8>)
        ensures
            final(self).mode == old(self).mode,
            final(self).invert == old(self).invert,
            final(self).previous == ColorState::Unset,
            final(out)@ == old(out)@ + reset_sequence(),
    {
        push_reset(out);
        self.previous = ColorState::Unset;
    }
}

/// Caching is idempotent: once a colour is in force, encoding it again
/// writes nothing, so no sequence is ever written twice in a row for an
/// unchanged colour.
pub proof fn lemma_encode_idempotent(
    previous: ColorState,
    rgb: Rgb,
    mode: ColorMode,
    invert: bool,
)
    ensures
        transition(resolve(rgb, mode), resolve(rgb, mode), invert) == Seq::<u8>::empty(),
        transition(previous, resolve(rgb, mode), invert).len() > 0 ==> previous != resolve(
            rgb,
            mode,
        ),
{
}

/// Inverted text stays legible: no colour of the wheel is written as the
/// black that the text is set in.
pub proof fn lemma_inverted_is_legible(hue: int, mode: ColorMode)
    requires
        0 <= hue < TURN,
    ensures
        contrast(resolve(wheel(hue), mode)) != resolve(wheel(hue), mode),
{
    let rgb = wheel(hue);
    if mode == ColorMode::Indexed {
        lemma_nearest(rgb);
        if nearest(rgb) == CUBE_START {
            let black = Rgb { r: 0, g: 0, b: 0 };
            let pure = if rgb.r == 255 {
                Rgb { r: 255, g: 0, b: 0 }
            } else if rgb.g == 255 {
                Rgb { r: 0, g: 255, b: 0 }
            } else {
                Rgb { r: 0, g: 0, b: 255 }
            };
            let index: int = if rgb.r == 255 {
                196
            } else if rgb.g == 255 {
                46
            } else {
                21
            };
            assert(distance(rgb, pure) < distance(rgb, black)) by (nonlinear_arith)
                requires
                    black.r == 0 && black.g == 0 && black.b == 0,
                    (rgb.r == 255 && pure.r == 255 && pure.g == 0 && pure.b == 0) || (rgb.g == 255
                        && pure.r == 0 && pure.g == 255 && pure.b == 0) || (rgb.b == 255 && pure.r
                        == 0 && pure.g == 0 && pure.b == 255),
            ;
            assert(distance(rgb, palette_color(CUBE_START as int)) <= distance(
                rgb,
                palette_color(index),
            ));
        }
    }
}

} // verus!
