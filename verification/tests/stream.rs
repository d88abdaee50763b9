use lolcat::escape::push_reset;
use lolcat::opts::Opts;
use lolcat::render::{line_end, render};
use lolcat::stream::{Action, Event, Stream};

struct Sink {
    taken: Vec<u8>,
    room: usize,
    refusals: usize,
}

fn write_all(sink: &mut Sink, bytes: &[u8]) -> bool {
    if sink.refusals == 0 || bytes.len() <= sink.room {
        sink.taken.extend_from_slice(bytes);
        if sink.refusals > 0 {
            sink.room -= bytes.len();
        }
        true
    } else {
        sink.taken.extend_from_slice(&bytes[..sink.room]);
        sink.room = 0;
        sink.refusals -= 1;
        false
    }
}

fn run(input: &[u8], sink: &mut Sink) -> (Action, usize) {
    let params = {
        let mut opts = Opts::defaults();
        opts.seed = 1;
        opts.parameters()
    };
    let mut stream = Stream::start();
    let mut start = 0;
    let mut row = 0;
    let mut resets = 0;
    loop {
        match stream.action() {
            Action::WriteLine => {
                if start == input.len() {
                    stream.step(Event::InputEnded);
                } else {
                    let end = line_end(input, start);
                    let bytes = render(&input[start..end], row, 0, &params);
                    start = end;
                    row += 1;
                    if write_all(sink, &bytes) {
                        stream.step(Event::LineWritten);
                    } else {
                        stream.step(Event::LineRefused);
                    }
                }
            }
            Action::WriteReset => {
                resets += 1;
                let mut bytes = Vec::new();
                push_reset(&mut bytes);
                if write_all(sink, &bytes) {
                    stream.step(Event::ResetWritten);
                } else {
                    stream.step(Event::ResetRefused);
                }
            }
            last => return (last, resets),
        }
    }
}

#[test]
fn stream_without_failure_ends_behind_its_last_line() {
    let mut sink = Sink { taken: Vec::new(), room: 0, refusals: 0 };
    let (last, resets) = run(b"a\nb\n", &mut sink);
    assert_eq!(last, Action::Finish);
    assert_eq!(resets, 0);
    assert_eq!(sink.taken, b"\x1b[38;5;196ma\n\x1b[0m\x1b[38;5;196mb\n\x1b[0m");
}

#[test]
fn empty_stream_gets_its_reset() {
    let mut sink = Sink { taken: Vec::new(), room: 0, refusals: 0 };
    let (last, resets) = run(b"", &mut sink);
    assert_eq!(last, Action::Finish);
    assert_eq!(resets, 1);
    assert_eq!(sink.taken, b"\x1b[0m");
}

#[test]
fn sink_that_fails_once_still_gets_one_reset() {
    for room in 0..40 {
        let mut sink = Sink { taken: Vec::new(), room, refusals: 1 };
        let (last, resets) = run(b"a\nb\n", &mut sink);
        let whole: &[u8] = b"\x1b[38;5;196ma\n\x1b[0m\x1b[38;5;196mb\n\x1b[0m";
        if room >= whole.len() {
            assert_eq!(last, Action::Finish);
            assert_eq!(resets, 0);
            assert_eq!(sink.taken, whole);
        } else {
            assert_eq!(last, Action::Fail);
            assert_eq!(resets, 1);
            assert!(sink.taken.ends_with(b"\x1b[0m"));
            let kept = sink.taken.len() - 4;
            assert!(whole.starts_with(&sink.taken[..kept]));
        }
    }
}

#[test]
fn sink_that_fails_twice_gets_the_reset_at_the_second_try() {
    let mut sink = Sink { taken: Vec::new(), room: 13, refusals: 2 };
    let (last, resets) = run(b"a\nb\n", &mut sink);
    assert_eq!(last, Action::Fail);
    assert_eq!(resets, 2);
    assert_eq!(sink.taken, b"\x1b[38;5;196ma\n\x1b[0m");
}

#[test]
fn sink_that_stays_broken_is_given_up_after_two_tries() {
    let mut sink = Sink { taken: Vec::new(), room: 5, refusals: 1000 };
    let (last, resets) = run(b"a\nb\n", &mut sink);
    assert_eq!(last, Action::Fail);
    assert_eq!(resets, 2);
    assert_eq!(sink.taken, b"\x1b[38;");
}

#[test]
fn steps_follow_the_table() {
    let mut stream = Stream::start();
    assert_eq!(stream, Stream::Open { written: false });
    assert_eq!(stream.action(), Action::WriteLine);
    assert_eq!(stream.step(Event::LineWritten), Action::WriteLine);
    assert_eq!(stream, Stream::Open { written: true });
    assert_eq!(stream.step(Event::LineWritten), Action::WriteLine);
    assert_eq!(stream.step(Event::InputEnded), Action::Finish);
    assert_eq!(stream, Stream::Closed { failed: false });

    let mut stream = Stream::start();
    assert_eq!(stream.step(Event::InputEnded), Action::WriteReset);
    assert_eq!(stream, Stream::Resetting { retried: false, failed: false });
    assert_eq!(stream.step(Event::ResetWritten), Action::Finish);

    let mut stream = Stream::start();
    assert_eq!(stream.step(Event::InputEnded), Action::WriteReset);
    assert_eq!(stream.step(Event::ResetRefused), Action::WriteReset);
    assert_eq!(stream, Stream::Resetting { retried: true, failed: true });
    assert_eq!(stream.step(Event::ResetWritten), Action::Fail);

    let mut stream = Stream::Open { written: true };
    assert_eq!(stream.step(Event::LineRefused), Action::WriteReset);
    assert_eq!(stream, Stream::Resetting { retried: false, failed: true });
    assert_eq!(stream.step(Event::ResetRefused), Action::WriteReset);
    assert_eq!(stream.step(Event::ResetRefused), Action::Fail);
    assert_eq!(stream, Stream::Closed { failed: true });
}

#[test]
fn events_that_answer_nothing_change_nothing() {
    let events = [
        Event::LineWritten,
        Event::LineRefused,
        Event::InputEnded,
        Event::Interrupted,
        Event::ResetWritten,
        Event::ResetRefused,
    ];
    for closed in [Stream::Closed { failed: false }, Stream::Closed { failed: true }] {
        for event in events {
            let mut stream = closed;
            stream.step(event);
            assert_eq!(stream, closed);
        }
    }
    for event in [Event::ResetWritten, Event::ResetRefused] {
        let mut stream = Stream::Open { written: false };
        assert_eq!(stream.step(event), Action::WriteLine);
        assert_eq!(stream, Stream::Open { written: false });
    }
    for event in [
        Event::LineWritten,
        Event::LineRefused,
        Event::InputEnded,
        Event::Interrupted,
    ] {
        let mut stream = Stream::Resetting { retried: false, failed: true };
        assert_eq!(stream.step(event), Action::WriteReset);
        assert_eq!(stream, Stream::Resetting { retried: false, failed: true });
    }
}

#[test]
fn interrupt_ends_the_stream_like_the_end_of_the_input() {
    let mut stream = Stream::start();
    assert_eq!(stream.step(Event::Interrupted), Action::WriteReset);
    assert_eq!(stream, Stream::Resetting { retried: false, failed: false });
    assert_eq!(stream.step(Event::ResetWritten), Action::Finish);

    let mut stream = Stream::Open { written: true };
    assert_eq!(stream.step(Event::Interrupted), Action::Finish);
    assert_eq!(stream, Stream::Closed { failed: false });
}

#[test]
fn no_run_asks_for_more_than_two_resets() {
    let events = [
        Event::LineWritten,
        Event::LineRefused,
        Event::InputEnded,
        Event::Interrupted,
        Event::ResetWritten,
        Event::ResetRefused,
    ];
    let mut code = 0;
    while code < 6 * 6 * 6 * 6 * 6 * 6 {
        let mut stream = Stream::start();
        let mut asked = 0;
        let mut taken = 0;
        let mut rest = code;
        for _ in 0..6 {
            let event = events[rest % 6];
            rest /= 6;
            let before = stream;
            if matches!(before, Stream::Resetting { .. }) && event == Event::ResetWritten {
                taken += 1;
            }
            let action = stream.step(event);
            if action == Action::WriteReset && stream != before {
                asked += 1;
            }
        }
        assert!(asked <= 2);
        assert!(taken <= 1);
        code += 1;
    }
}

#[test]
fn stream_is_at_its_start_until_a_line_went_out() {
    let mut stream = Stream::start();
    assert!(stream.at_start());
    stream.step(Event::LineWritten);
    assert!(!stream.at_start());
    assert!(!Stream::Resetting { retried: false, failed: false }.at_start());
    assert!(!Stream::Closed { failed: false }.at_start());
    let mut refused = Stream::start();
    refused.step(Event::LineRefused);
    assert!(!refused.at_start());
}
