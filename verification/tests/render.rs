use lolcat::opts::{Opts, Parameters};
use lolcat::render::{frame, line_end, lolify, render, render_into, render_pass, rewind};
use lolcat::strip::strip_escapes;

fn options(seed: u32, truecolor: bool) -> Opts {
    let mut opts = Opts::defaults();
    opts.seed = seed;
    opts.truecolor = truecolor;
    opts
}

fn params(spread: u32, frequency: u32, seed: u32, truecolor: bool, invert: bool) -> Parameters {
    let mut opts = Opts::defaults();
    opts.spread = spread;
    opts.freq = frequency;
    opts.seed = seed;
    opts.truecolor = truecolor;
    opts.invert = invert;
    opts.parameters()
}

fn count(haystack: &[u8], needle: &[u8]) -> usize {
    let mut n = 0;
    let mut at = 0;
    while at + needle.len() <= haystack.len() {
        if &haystack[at..at + needle.len()] == needle {
            n += 1;
        }
        at += 1;
    }
    n
}

#[test]
fn four_letters_get_four_colours() {
    let p = params(3000, 100, 1, true, false);
    let out = render(b"AAAA", 0, 0, &p);
    assert_eq!(
        out,
        b"\x1b[38;2;255;13;0mA\x1b[38;2;255;22;0mA\x1b[38;2;255;30;0mA\x1b[38;2;255;39;0mA\x1b[0m"
    );
    assert_eq!(count(&out, b"\x1b[38;2;"), 4);
    assert_eq!(strip_escapes(&out), b"AAAA");
}

#[test]
fn two_lines_get_a_reset_each() {
    let out = lolify(b"a\nb\n", &options(1, false));
    assert_eq!(out, b"\x1b[38;5;196ma\n\x1b[0m\x1b[38;5;196mb\n\x1b[0m");
    assert_eq!(count(&out, b"\x1b[0m"), 2);
    assert_eq!(count(&out, b"\n"), 2);
    assert_eq!(count(&out, b"\x1b[?"), 0);
    let mut at = 0;
    while at < out.len() {
        if out[at] == 0x1b {
            let mut end = at + 2;
            while !(0x40..=0x7e).contains(&out[end]) {
                end += 1;
            }
            assert_eq!(out[end], b'm');
        }
        at += 1;
    }
}

#[test]
fn two_lines_in_truecolor() {
    let out = lolify(b"a\nb\n", &options(1, true));
    assert_eq!(out, b"\x1b[38;2;255;13;0ma\n\x1b[0m\x1b[38;2;255;39;0mb\n\x1b[0m");
}

#[test]
fn multi_byte_characters_stay_whole_and_blanks_stay_bare() {
    let p = params(3000, 100, 1, true, false);
    let out = render("héllo wörld\t!\r\n".as_bytes(), 2, 0, &p);
    let expected: &[u8] = b"\x1b[38;2;255;64;0mh\x1b[38;2;255;73;0m\xc3\xa9\x1b[38;2;255;81;0ml\x1b[38;2;255;90;0ml\x1b[38;2;255;98;0mo \x1b[38;2;255;115;0mw\x1b[38;2;255;124;0m\xc3\xb6\x1b[38;2;255;132;0mr\x1b[38;2;255;141;0ml\x1b[38;2;255;149;0md\t\x1b[38;2;255;166;0m!\r\n\x1b[0m";
    assert_eq!(out, expected);
}

#[test]
fn palette_colours_of_a_fast_rainbow() {
    let p = params(1000, 1000, 1, false, false);
    let out = render("héllo wörld\t!\r\n".as_bytes(), 2, 0, &p);
    let expected: &[u8] = b"\x1b[38;5;51mh\x1b[38;5;21m\xc3\xa9\x1b[38;5;201ml\x1b[38;5;196ml\x1b[38;5;226mo \x1b[38;5;51mw\x1b[38;5;21m\xc3\xb6\x1b[38;5;201mr\x1b[38;5;196ml\x1b[38;5;226md\t\x1b[38;5;51m!\r\n\x1b[0m";
    assert_eq!(out, expected);
}

#[test]
fn three_byte_characters_take_one_column_each() {
    let p = params(1000, 1000, 0, true, false);
    let out = render("日本語".as_bytes(), 0, 0, &p);
    let expected: &[u8] = b"\x1b[38;2;255;255;0m\xe6\x97\xa5\x1b[38;2;0;255;0m\xe6\x9c\xac\x1b[38;2;0;255;255m\xe8\xaa\x9e\x1b[0m";
    assert_eq!(out, expected);
}

#[test]
fn bytes_that_are_no_text_pass_through() {
    let p = params(1000, 1000, 0, true, false);
    let out = render(b"abc\xff\x80\xbf\xc0", 0, 0, &p);
    let expected: &[u8] = b"\x1b[38;2;255;255;0ma\x1b[38;2;0;255;0mb\x1b[38;2;0;255;255mc\x1b[38;2;0;0;255m\xff\x80\xbf\x1b[38;2;255;0;255m\xc0\x1b[0m";
    assert_eq!(out, expected);
    assert_eq!(strip_escapes(&out), b"abc\xff\x80\xbf\xc0");
}

#[test]
fn inverted_line_colours_the_background() {
    let out = render(b"ab", 0, 0, &params(3000, 100, 1, true, true));
    assert_eq!(out, b"\x1b[38;2;0;0;0m\x1b[48;2;255;13;0ma\x1b[48;2;255;22;0mb\x1b[0m");
    let out = render(b"ab cd", 5, 3000, &params(500, 2000, 77, false, true));
    assert_eq!(
        out,
        b"\x1b[38;5;16m\x1b[48;5;220ma\x1b[48;5;165mb \x1b[48;5;220mc\x1b[48;5;165md\x1b[0m"
    );
}

#[test]
fn last_line_without_line_feed_is_rendered_too() {
    let p = params(3000, 100, 200, true, false);
    let out = render_pass(b"one\ntwo", 1500, &p);
    let expected: &[u8] = b"\x1b[38;2;255;55;0mo\x1b[38;2;255;64;0mn\x1b[38;2;255;72;0me\n\x1b[0m\x1b[38;2;255;81;0mt\x1b[38;2;255;89;0mw\x1b[38;2;255;98;0mo\x1b[0m";
    assert_eq!(out, expected);
}

#[test]
fn empty_lines_and_empty_text() {
    let opts = options(1, false);
    assert_eq!(lolify(b"\n\n", &opts), b"\n\x1b[0m\n\x1b[0m");
    assert_eq!(lolify(b"", &opts), b"\x1b[0m");
    assert_eq!(render(b"", 0, 0, &opts.parameters()), b"\x1b[0m");
    assert_eq!(render(b" \t ", 0, 0, &opts.parameters()), b" \t \x1b[0m");
}

#[test]
fn lolify_is_the_pass_at_phase_zero() {
    let opts = options(42, true);
    let text = b"The quick brown fox\njumps over\n\nthe lazy dog";
    assert_eq!(lolify(text, &opts), render_pass(text, 0, &opts.parameters()));
    assert_ne!(lolify(text, &opts), render_pass(text, 500, &opts.parameters()));
}

#[test]
fn pass_is_the_lines_one_after_the_other() {
    let p = params(2000, 300, 5, true, false);
    let mut expected = render(b"ab\n", 0, 70, &p);
    expected.extend(render(b"\n", 1, 70, &p));
    expected.extend(render(b"cd", 2, 70, &p));
    assert_eq!(render_pass(b"ab\n\ncd", 70, &p), expected);
}

#[test]
fn render_into_appends() {
    let p = params(3000, 100, 1, true, false);
    let mut out = b">>".to_vec();
    render_into(&mut out, b"A", 0, 0, &p);
    assert_eq!(out, b">>\x1b[38;2;255;13;0mA\x1b[0m");
}

#[test]
fn line_end_is_behind_the_line_feed() {
    assert_eq!(line_end(b"ab\ncd", 0), 3);
    assert_eq!(line_end(b"ab\ncd", 1), 3);
    assert_eq!(line_end(b"ab\ncd", 2), 3);
    assert_eq!(line_end(b"ab\ncd", 3), 5);
    assert_eq!(line_end(b"\n\n", 0), 1);
    assert_eq!(line_end(b"\n\n", 1), 2);
    assert_eq!(line_end(b"x", 0), 1);
}

#[test]
fn stripping_gives_the_text_back() {
    let texts: [&[u8]; 8] = [
        b"",
        b"\n",
        b"plain",
        b"two\nlines\n",
        b"tabs\tand  spaces \r\n",
        "gr\u{00fc}\u{00df}e \u{4e16}\u{754c} \u{1f308}\n".as_bytes(),
        b"\x00\x01\x02 control \x7f bytes",
        b"a lone \x1b escape and an open one \x1b[12;",
    ];
    for text in texts {
        for truecolor in [false, true] {
            for invert in [false, true] {
                let p = params(3000, 100, 7, truecolor, invert);
                let out = render_pass(text, 250, &p);
                assert_eq!(strip_escapes(&out), text);
            }
        }
    }
}

#[test]
fn every_output_ends_in_one_reset() {
    let texts: [&[u8]; 5] = [b"", b"x", b"x\n", b"x\ny", b"\n\n\n"];
    for text in texts {
        let out = lolify(text, &options(9, true));
        assert!(out.ends_with(b"\x1b[0m"));
        assert!(!out.ends_with(b"\x1b[0m\x1b[0m"));
        let lines = text.split_inclusive(|b| *b == b'\n').count().max(1);
        assert_eq!(count(&out, b"\x1b[0m"), lines);
    }
}

#[test]
fn no_colour_is_written_twice_in_a_row() {
    let text = b"mmmmmmmmmmmmmmmmmmmmmmmmmmmmmmmmmmmmmmmmmmmmmmmmmmmmmmmmmmmmmmmmmmmmmm";
    for truecolor in [false, true] {
        let out = render(text, 0, 0, &params(3000, 100, 1, truecolor, false));
        let mut last: Vec<u8> = Vec::new();
        let mut seen = 0;
        let mut at = 0;
        while at < out.len() {
            if out[at] == 0x1b {
                let mut end = at;
                while out[end] != b'm' {
                    end += 1;
                }
                let sequence = out[at..=end].to_vec();
                assert_ne!(sequence, last);
                last = sequence;
                seen += 1;
                at = end + 1;
            } else {
                at += 1;
            }
        }
        assert!(seen > 2);
        assert!(seen <= text.len() + 1);
        if !truecolor {
            assert!(seen < text.len());
        }
    }
}

#[test]
fn text_with_its_own_sequence_is_passed_on_as_it_is() {
    let p = params(3000, 100, 1, false, false);
    assert_eq!(render(b"A\x1b[0m", 0, 0, &p), b"\x1b[38;5;196mA\x1b[0m\x1b[0m");
    let p = params(3000, 100, 1, true, false);
    let expected: &[u8] = b"\x1b[38;2;255;13;0mA\x1b\x1b[38;2;255;30;0m[\x1b[38;2;255;39;0m0\x1b[38;2;255;47;0mm\x1b[0m";
    assert_eq!(render(b"A\x1b[0m", 0, 0, &p), expected);
}

#[test]
fn rewind_goes_up_by_the_line_feeds() {
    assert_eq!(rewind(b""), b"\r");
    assert_eq!(rewind(b"abc"), b"\r");
    assert_eq!(rewind(b"abc\n"), b"\r\x1b[1A");
    assert_eq!(rewind(b"a\nb\n"), b"\r\x1b[2A");
    assert_eq!(rewind(b"a\nb\nc"), b"\r\x1b[2A");
    assert_eq!(rewind(&[b'\n'; 120]), b"\r\x1b[120A");
}

#[test]
fn first_frame_is_the_pass_and_later_frames_go_back_first() {
    let p = params(3000, 100, 1, false, false);
    assert_eq!(frame(true, b"a\nb\n", 0, &p), b"\x1b[38;5;196ma\n\x1b[0m\x1b[38;5;196mb\n\x1b[0m");
    assert_eq!(
        frame(false, b"a\nb\n", 0, &p),
        b"\r\x1b[2A\x1b[38;5;196ma\n\x1b[0m\x1b[38;5;196mb\n\x1b[0m"
    );
    assert_eq!(frame(false, b"A", 0, &p), b"\r\x1b[38;5;196mA\x1b[0m");
    assert_eq!(frame(true, b"", 0, &p), b"\x1b[0m");
    assert_eq!(frame(false, b"", 0, &p), b"\r\x1b[0m");
    let text = b"one\ntwo\nthree";
    let mut expected = rewind(text);
    expected.extend(render_pass(text, 750, &p));
    assert_eq!(frame(false, text, 750, &p), expected);
    assert_eq!(frame(true, text, 750, &p), render_pass(text, 750, &p));
}
