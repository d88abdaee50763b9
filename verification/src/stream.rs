//! The discipline of one output stream: which write is due, and how the
//! stream ends when the sink refuses one.
//!
//! The library writes nothing itself. Its caller performs the write that is
//! due and reports what the sink did; the stream then says what is due next.
//! Every rendered line ends in its own reset, so a stream that was written
//! in full is closed as it stands. A stream without lines, one that the user
//! interrupts, and one whose sink refused a write still owe the terminal a
//! reset: it is tried, tried once more if refused, and then given up.

use crate::escape::reset_sequence;
use vstd::prelude::*;

verus! {

/// Where an output stream stands.
#[derive(Clone, Copy, Debug, PartialEq, Eq, Structural)]
pub enum Stream {
    /// Lines are being written. `written` says that at least one went out.
    Open { written: bool },
    /// A reset is owed. `retried` says that one try was refused already,
    /// `failed` that a write was refused at all.
    Resetting { retried: bool, failed: bool },
    /// Nothing more is written. `failed` says that a write was refused.
    Closed { failed: bool },
}

/// What the sink did with the write that was due, or that no line was left.
#[derive(Clone, Copy, Debug, PartialEq, Eq, Structural)]
pub enum Event {
    /// The sink took a rendered line in full.
    LineWritten,
    /// The sink refused a rendered line, or took only part of it.
    LineRefused,
    /// The input has no further line.
    InputEnded,
    /// The user asked to stop, between two writes.
    Interrupted,
    /// The sink took the reset.
    ResetWritten,
    /// The sink refused the reset.
    ResetRefused,
}

/// What the caller does next.
#[derive(Clone, Copy, Debug, PartialEq, Eq, Structural)]
pub enum Action {
    /// Read the next line, render and write it.
    WriteLine,
    /// Write a reset.
    WriteReset,
    /// Stop: the stream is complete.
    Finish,
    /// Stop, and hand on the failure of the first refused write.
    Fail,
}

impl Stream {
    /// The write that is due in this state.
    pub open spec fn due(self) -> Action {
        match self {
            Stream::Open { .. } => Action::WriteLine,
            Stream::Resetting { .. } => Action::WriteReset,
            Stream::Closed { failed } => if failed {
                Action::Fail
            } else {
                Action::Finish
            },
        }
    }

    /// The state after `event`. An event that answers no write of this
    /// state changes nothing.
    pub open spec fn after(self, event: Event) -> Stream {
        match (self, event) {
            (Stream::Open { .. }, Event::LineWritten) => Stream::Open { written: true },
            (Stream::Open { .. }, Event::LineRefused) => Stream::Resetting {
                retried: false,
                failed: true,
            },
            (Stream::Open { written }, Event::InputEnded | Event::Interrupted) => if written {
                Stream::Closed { failed: false }
            } else {
                Stream::Resetting { retried: false, failed: false }
            },
            (Stream::Resetting { failed, .. }, Event::ResetWritten) => Stream::Closed { failed },
            (Stream::Resetting { retried, .. }, Event::ResetRefused) => if retried {
                Stream::Closed { failed: true }
            } else {
                Stream::Resetting { retried: true, failed: true }
            },
            _ => self,
        }
    }

    /// The state after all of `events`, in their order.
    pub open spec fn after_all(self, events: Seq<Event>) -> Stream
        decreases events.len(),
    {
        if events.len() == 0 {
            self
        } else {
            self.after(events[0]).after_all(events.skip(1))
        }
    }

    /// Number of resets that the stream asks for in the course of `events`:
    /// the steps that lead into a state that owes one.
    pub open spec fn resets_asked(self, events: Seq<Event>) -> nat
        decreases events.len(),
    {
        if events.len() == 0 {
            0
        } else {
            let next = self.after(events[0]);
            next.resets_asked(events.skip(1)) + if next is Resetting && next != self {
                1nat
            } else {
                0nat
            }
        }
    }

    /// Number of resets that the sink takes in the course of `events`.
    pub open spec fn resets_taken(self, events: Seq<Event>) -> nat
        decreases events.len(),
    {
        if events.len() == 0 {
            0
        } else {
            self.after(events[0]).resets_taken(events.skip(1)) + if self is Resetting
                && events[0] == Event::ResetWritten {
                1nat
            } else {
                0nat
            }
        }
    }

    /// Resets that this state may still ask for.
    pub open spec fn resets_left(self) -> nat {
        match self {
            Stream::Open { .. } => 2,
            Stream::Resetting { retried, .. } => if retried {
                0
            } else {
                1
            },
            Stream::Closed { .. } => 0,
        }
    }

    /// A stream before its first write.
    pub fn start() -> (stream: Stream)
        ensures
            stream == (Stream::Open { written: false }),
    {
        Stream::Open { written: false }
    }

    /// Tells whether nothing has gone out yet, so that the next write is
    /// the first.
    pub fn at_start(&self) -> (fresh: bool)
        ensures
            fresh == (*self == (Stream::Open { written: false })),
    {
        match self {
            Stream::Open { written } => !*written,
            _ => false,
        }
    }

    /// The write that is due.
    pub fn action(&self) -> (action: Action)
        ensures
            action == self.due(),
    {
        match self {
            Stream::Open { .. } => Action::WriteLine,
            Stream::Resetting { .. } => Action::WriteReset,
            Stream::Closed { failed } => if *failed {
                Action::Fail
            } else {
                Action::Finish
            },
        }
    }

    /// Takes note of `event` and says what is due after it.
    pub fn step(&mut self, event: Event) -> (action: Action)
        ensures
            *final(self) == old(self).after(event),
            action == final(self).due(),
    {
        let next = match (*self, event) {
            (Stream::Open { .. }, Event::LineWritten) => Stream::Open { written: true },
            (Stream::Open { .. }, Event::LineRefused) => Stream::Resetting {
                retried: false,
                failed: true,
            },
            (Stream::Open { written }, Event::InputEnded | Event::Interrupted) => if written {
                Stream::Closed { failed: false }
            } else {
                Stream::Resetting { retried: false, failed: false }
            },
            (Stream::Resetting { failed, .. }, Event::ResetWritten) => Stream::Closed { failed },
            (Stream::Resetting { retried, .. }, Event::ResetRefused) => if retried {
                Stream::Closed { failed: true }
            } else {
                Stream::Resetting { retried: true, failed: true }
            },
            (same, _) => same,
        };
        *self = next;
        self.action()
    }
}

/// A closed stream stays closed and asks for no further write.
pub proof fn lemma_closed_is_final(stream: Stream, event: Event)
    requires
        stream is Closed,
    ensures
        stream.after(event) == stream,
        stream.due() != Action::WriteLine,
        stream.due() != Action::WriteReset,
{
}

/// A stream closes without failure only behind a reset: behind the one of
/// its last line, or behind the one that it asked for and the sink took.
pub proof fn lemma_finish_follows_reset(stream: Stream, event: Event)
    requires
        !(stream is Closed),
        stream.after(event) == (Stream::Closed { failed: false }),
    ensures
        (stream == (Stream::Open { written: true }) && (event == Event::InputEnded || event
            == Event::Interrupted)) || (stream is Resetting && event == Event::ResetWritten),
{
}

/// A failure is handed on only after the reset was tried: the sink took
/// it, or refused it twice.
pub proof fn lemma_fail_follows_reset(stream: Stream, event: Event)
    requires
        !(stream is Closed),
        stream.after(event) == (Stream::Closed { failed: true }),
    ensures
        stream is Resetting,
        event == Event::ResetWritten || (event == Event::ResetRefused
            && stream->Resetting_retried),
{
}

/// Whatever the sink does, a stream asks for at most two resets, and the
/// sink takes at most one: none is written behind another.
pub proof fn lemma_reset_budget(stream: Stream, events: Seq<Event>)
    ensures
        stream.resets_asked(events) <= stream.resets_left(),
        stream.resets_taken(events) <= 1,
        !(stream is Resetting) && stream.resets_asked(events) == 0 ==> stream.resets_taken(
            events,
        ) == 0,
        stream is Closed ==> stream.resets_taken(events) == 0,
    decreases events.len(),
{
    if events.len() > 0 {
        lemma_reset_budget(stream.after(events[0]), events.skip(1));
    }
}

/// One move of the caller as the sink saw it.
pub enum Move {
    /// A rendered line went to the sink, which took `taken` of its bytes.
    Line { bytes: Seq<u8>, taken: nat },
    /// No line was left.
    End,
    /// The user asked to stop.
    Interrupt,
    /// A reset went to the sink, which took `taken` of its bytes.
    Reset { taken: nat },
}

/// `bytes` ends in a reset.
pub open spec fn ends_in_reset(bytes: Seq<u8>) -> bool {
    bytes.len() >= 4 && bytes.skip(bytes.len() - 4) == reset_sequence()
}

impl Move {
    /// The event that the caller reports of this move: a write counts as
    /// written only if the sink took all of it.
    pub open spec fn event(self) -> Event {
        match self {
            Move::Line { bytes, taken } => if taken == bytes.len() {
                Event::LineWritten
            } else {
                Event::LineRefused
            },
            Move::End => Event::InputEnded,
            Move::Interrupt => Event::Interrupted,
            Move::Reset { taken } => if taken == 4 {
                Event::ResetWritten
            } else {
                Event::ResetRefused
            },
        }
    }

    /// What the sink holds more after this move.
    pub open spec fn taken_bytes(self) -> Seq<u8> {
        match self {
            Move::Line { bytes, taken } => bytes.take(taken as int),
            Move::Reset { taken } => reset_sequence().take(taken as int),
            _ => Seq::empty(),
        }
    }

    /// The move is the one that `stream` calls for: a write is the one that
    /// is due, a line is a rendered one and so ends in a reset, and the
    /// sink takes no more than it is handed.
    pub open spec fn answers(self, stream: Stream) -> bool {
        match self {
            Move::Line { bytes, taken } => stream.due() == Action::WriteLine && ends_in_reset(
                bytes,
            ) && taken <= bytes.len(),
            Move::End => stream.due() == Action::WriteLine,
            Move::Interrupt => true,
            Move::Reset { taken } => stream.due() == Action::WriteReset && taken <= 4,
        }
    }
}

impl Stream {
    /// Every one of `moves` is the one that the stream calls for when its
    /// turn comes.
    pub open spec fn led(self, moves: Seq<Move>) -> bool
        decreases moves.len(),
    {
        moves.len() > 0 ==> moves[0].answers(self) && self.after(moves[0].event()).led(
            moves.skip(1),
        )
    }

    /// The state after all of `moves`.
    pub open spec fn after_moves(self, moves: Seq<Move>) -> Stream
        decreases moves.len(),
    {
        if moves.len() == 0 {
            self
        } else {
            self.after(moves[0].event()).after_moves(moves.skip(1))
        }
    }

    /// The sink holds what was handed to it so far, and that ends in a
    /// reset wherever this state takes it for granted.
    pub open spec fn settled(self, sink: Seq<u8>) -> bool {
        self == (Stream::Open { written: true }) || self == (Stream::Closed { failed: false })
            ==> ends_in_reset(sink)
    }
}

/// What the sink holds after all of `moves`, if it held `sink` before.
pub open spec fn sink_after(sink: Seq<u8>, moves: Seq<Move>) -> Seq<u8>
    decreases moves.len(),
{
    if moves.len() == 0 {
        sink
    } else {
        sink_after(sink + moves[0].taken_bytes(), moves.skip(1))
    }
}

/// Whatever the sink takes or refuses: a stream that is led by its own
/// states and finishes without failure has left the sink with a reset at
/// its end.
pub proof fn lemma_finished_stream_ends_in_reset(moves: Seq<Move>)
    requires
        (Stream::Open { written: false }).led(moves),
        (Stream::Open { written: false }).after_moves(moves) == (Stream::Closed { failed: false }),
    ensures
        ends_in_reset(sink_after(Seq::empty(), moves)),
{
    lemma_settled(Stream::Open { written: false }, Seq::empty(), moves);
}

/// A reset that the sink takes as the last move leaves the sink with a
/// reset at its end, also where the stream has failed.
pub proof fn lemma_taken_reset_ends_the_sink(sink: Seq<u8>, moves: Seq<Move>)
    requires
        moves.len() > 0,
        moves.last() == (Move::Reset { taken: 4 }),
    ensures
        ends_in_reset(sink_after(sink, moves)),
    decreases moves.len(),
{
    let held = sink + moves[0].taken_bytes();
    if moves.len() == 1 {
        assert(held.skip(held.len() - 4) =~= reset_sequence());
        assert(sink_after(held, moves.skip(1)) == held);
    } else {
        lemma_taken_reset_ends_the_sink(held, moves.skip(1));
    }
}

/// A sink that is settled stays so through every move that the stream
/// calls for.
pub proof fn lemma_settled(stream: Stream, sink: Seq<u8>, moves: Seq<Move>)
    requires
        stream.settled(sink),
        stream.led(moves),
    ensures
        stream.after_moves(moves).settled(sink_after(sink, moves)),
    decreases moves.len(),
{
    if moves.len() > 0 {
        let first = moves[0];
        let next = stream.after(first.event());
        let held = sink + first.taken_bytes();
        match first {
            Move::Line { bytes, taken } => {
                if taken == bytes.len() {
                    assert(held.skip(held.len() - 4) =~= bytes.skip(bytes.len() - 4));
                }
            },
            Move::Reset { taken } => {
                if taken == 4 {
                    assert(held.skip(held.len() - 4) =~= reset_sequence());
                }
            },
            _ => {
                assert(held =~= sink);
            },
        }
        lemma_settled(next, held, moves.skip(1));
    }
}

} // verus!
