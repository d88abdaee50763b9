//! Rainbow colouring of text for ANSI terminals.
//!
//! Every character of a text stream gets a colour from a hue wheel, chosen by
//! its line, its column and an optional animation phase, and the colour is
//! written as an escape sequence in front of the character's own bytes.
//! All numeric parameters are fixed-point integers in thousandths.

pub mod clock;
pub mod color;
pub mod escape;
pub mod opts;
pub mod palette;
pub mod render;
pub mod roundtrip;
pub mod stream;
pub mod strip;
