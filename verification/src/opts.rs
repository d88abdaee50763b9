//! Run configuration: the options as a caller fills them in, and the numeric
//! parameters that the colouring engine reads.

use rand::Rng;
use vstd::prelude::*;

verus! {

/// One unit of a fixed-point parameter: `spread`, `freq` and `speed` are
/// counted in thousandths, so `3 * SCALE` stands for 3.0.
pub const SCALE: u32 = 1000;

/// Every seed lies below this number once the options are normalized:
/// that many seeds make one turn of the hue wheel.
pub const SEED_RANGE: u32 = 256;

/// The numbers and switches that decide every colour of a run.
#[derive(Clone, Copy, Debug, PartialEq, Eq, Structural)]
pub struct Parameters {
    /// Characters per unit of rainbow position, in thousandths.
    pub spread: u32,
    /// Sixths of a hue turn per unit of rainbow position, in thousandths.
    pub frequency: u32,
    /// Phase offset in 256ths of a hue turn.
    pub seed: u32,
    pub animate: bool,
    /// Length of an animation in seconds; zero means no limit.
    pub duration: u32,
    /// Phase advance per second of animation, in thousandths.
    pub speed: u32,
    pub invert: bool,
    pub truecolor: bool,
    pub force: bool,
}

impl Parameters {
    /// Spread and frequency are strictly positive.
    pub open spec fn valid(&self) -> bool {
        self.spread > 0 && self.frequency > 0
    }

    /// Tells whether spread and frequency are strictly positive, as every
    /// function that computes a colour asks.
    pub fn is_valid(&self) -> (ok: bool)
        ensures
            ok == self.valid(),
    {
        self.spread > 0 && self.frequency > 0
    }
}

/// The options of one invocation.
#[derive(Debug, PartialEq)]
pub struct Opts {
    /// Inputs to read; `-` names standard input.
    pub files: Vec<String>,
    pub spread: u32,
    pub freq: u32,
    /// Zero asks for a random seed.
    pub seed: u32,
    pub animate: bool,
    pub duration: u32,
    pub speed: u32,
    pub invert: bool,
    pub truecolor: bool,
    pub force: bool,
    pub help: bool,
    pub version: bool,
}

/// The single input that stands for standard input.
pub open spec fn stdin_only() -> Seq<Seq<char>> {
    seq!["-"@]
}

impl Opts {
    /// The file names as sequences of characters.
    pub open spec fn file_names(&self) -> Seq<Seq<char>> {
        self.files.deep_view()
    }

    /// Spread and frequency are strictly positive.
    pub open spec fn valid(&self) -> bool {
        self.spread > 0 && self.freq > 0
    }

    /// The numeric parameters that these options carry.
    pub open spec fn spec_parameters(&self) -> Parameters {
        Parameters {
            spread: self.spread,
            frequency: self.freq,
            seed: self.seed,
            animate: self.animate,
            duration: self.duration,
            speed: self.speed,
            invert: self.invert,
            truecolor: self.truecolor,
            force: self.force,
        }
    }

    /// True when `self` differs from `before` in nothing but seed and files.
    pub open spec fn same_settings(&self, before: &Opts) -> bool {
        &&& self.spread == before.spread
        &&& self.freq == before.freq
        &&& self.animate == before.animate
        &&& self.duration == before.duration
        &&& self.speed == before.speed
        &&& self.invert == before.invert
        &&& self.truecolor == before.truecolor
        &&& self.force == before.force
        &&& self.help == before.help
        &&& self.version == before.version
    }

    /// The seed after normalizing, where `draw` is the random number: the
    /// draw itself for a zero seed, which asks for a random one, else the
    /// given seed brought below `SEED_RANGE` by whole turns of the wheel.
    pub open spec fn resolved_seed(&self, draw: u32) -> u32 {
        if self.seed == 0 {
            draw
        } else {
            self.seed % SEED_RANGE
        }
    }

    /// The file names after normalizing: standard input where none was
    /// named, else the names as they are.
    pub open spec fn resolved_files(&self) -> Seq<Seq<char>> {
        if self.files@.len() == 0 {
            stdin_only()
        } else {
            self.file_names()
        }
    }

    /// The options of a run without arguments: spread 3.0, frequency 0.1,
    /// random seed, twelve seconds of animation at speed 20.0, all switches
    /// off and no files.
    pub fn defaults() -> (opts: Opts)
        ensures
            opts.files@.len() == 0,
            opts.spread == 3 * SCALE,
            opts.freq == SCALE / 10,
            opts.seed == 0,
            !opts.animate,
            opts.duration == 12,
            opts.speed == 20 * SCALE,
            !opts.invert,
            !opts.truecolor,
            !opts.force,
            !opts.help,
            !opts.version,
            opts.valid(),
    {
        Opts {
            files: Vec::new(),
            spread: 3 * SCALE,
            freq: SCALE / 10,
            seed: 0,
            animate: false,
            duration: 12,
            speed: 20 * SCALE,
            invert: false,
            truecolor: false,
            force: false,
            help: false,
            version: false,
        }
    }

    /// Resolves a zero seed to the random number `draw`, brings any other
    /// seed below `SEED_RANGE` by whole turns of the wheel, which keeps its
    /// colours, and resolves an empty file list to standard input;
    /// everything else stays.
    pub fn normalize_with(&mut self, draw: u32)
        requires
            draw < SEED_RANGE,
        ensures
            final(self).same_settings(old(self)),
            final(self).file_names() == old(self).resolved_files(),
            final(self).seed == old(self).resolved_seed(draw),
            final(self).seed < SEED_RANGE,
    {
        if self.seed == 0 {
            self.seed = draw;
        } else {
            self.seed = self.seed % SEED_RANGE;
        }
        if self.files.is_empty() {
            self.files.push("-".to_owned());
        }
    }

    /// Sets the seed to a random number if zero and populates files if
    /// empty. Afterwards the seed lies below `SEED_RANGE`: a zero seed has
    /// become a random number below it, a seed below it has stayed, and a
    /// larger one was brought below it by whole turns of the wheel. An empty
    /// file list has become standard input, and everything else has stayed.
    pub fn normalize(&mut self)
        ensures
            final(self).same_settings(old(self)),
            final(self).file_names() == old(self).resolved_files(),
            final(self).seed < SEED_RANGE,
            old(self).seed != 0 ==> final(self).seed == old(self).seed % SEED_RANGE,
            0 < old(self).seed < SEED_RANGE ==> final(self).seed == old(self).seed,
    {
        let draw: u32 = random_below(SEED_RANGE);
        self.normalize_with(draw);
    }

    /// Tells whether spread and frequency are strictly positive.
    pub fn is_valid(&self) -> (ok: bool)
        ensures
            ok == self.valid(),
            ok == self.spec_parameters().valid(),
    {
        self.spread > 0 && self.freq > 0
    }

    /// Extracts the numeric parameters.
    pub fn parameters(&self) -> (params: Parameters)
        ensures
            params == self.spec_parameters(),
    {
        Parameters {
            spread: self.spread,
            frequency: self.freq,
            seed: self.seed,
            animate: self.animate,
            duration: self.duration,
            speed: self.speed,
            invert: self.invert,
            truecolor: self.truecolor,
            force: self.force,
        }
    }
}

/// Draws a number with `rand::Rng::gen_range` over `0..bound` from the
/// generator that `rand::thread_rng` hands out. Assumed, not proved: the
/// number lies in the range asked for. Nothing is claimed about which number
/// comes, and two calls may differ.
#[verifier::external_body]
fn random_below(bound: u32) -> (pick: u32)
    requires
        bound > 0,
    ensures
        pick < bound,
{
    rand::thread_rng().gen_range(0..bound)
}

} // verus!
