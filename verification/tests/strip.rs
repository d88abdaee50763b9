use lolcat::strip::{sequence_length, strip_escapes};

#[test]
fn sequence_is_escape_bracket_parameters_and_a_final_byte() {
    assert_eq!(sequence_length(b"\x1b[0m", 0), 4);
    assert_eq!(sequence_length(b"\x1b[m", 0), 3);
    assert_eq!(sequence_length(b"\x1b[38;2;255;13;0mA", 0), 16);
    assert_eq!(sequence_length(b"\x1b[38;5;196m", 0), 11);
    assert_eq!(sequence_length(b"\x1b[2A", 0), 4);
    assert_eq!(sequence_length(b"\x1b[?1049h", 0), 8);
    assert_eq!(sequence_length(b"\x1b[1 q", 0), 5);
    assert_eq!(sequence_length(b"\x1b[ !/~", 0), 6);
    assert_eq!(sequence_length(b"ab\x1b[0mcd", 2), 4);
}

#[test]
fn what_is_no_sequence_has_length_zero() {
    assert_eq!(sequence_length(b"", 0), 0);
    assert_eq!(sequence_length(b"\x1b", 0), 0);
    assert_eq!(sequence_length(b"\x1b[", 0), 0);
    assert_eq!(sequence_length(b"\x1b[12;", 0), 0);
    assert_eq!(sequence_length(b"\x1b[12 ", 0), 0);
    assert_eq!(sequence_length(b"\x1b[1 2m", 0), 0);
    assert_eq!(sequence_length(b"\x1b[1\x1bm", 0), 0);
    assert_eq!(sequence_length(b"\x1b[1\nm", 0), 0);
    assert_eq!(sequence_length(b"\x1b[1\x7f", 0), 0);
    assert_eq!(sequence_length(b"\x1bm", 0), 0);
    assert_eq!(sequence_length(b"[0m", 0), 0);
    assert_eq!(sequence_length(b"ab\x1b[0m", 0), 0);
    assert_eq!(sequence_length(b"ab\x1b[0m", 1), 0);
    assert_eq!(sequence_length(b"ab\x1b[0m", 3), 0);
    assert_eq!(sequence_length(b"ab", 2), 0);
}

#[test]
fn stripping_removes_sequences_and_keeps_the_rest() {
    assert_eq!(strip_escapes(b""), b"");
    assert_eq!(strip_escapes(b"plain"), b"plain");
    assert_eq!(strip_escapes(b"\x1b[0m"), b"");
    assert_eq!(strip_escapes(b"a\x1b[31mb\x1b[0mc"), b"abc");
    assert_eq!(strip_escapes(b"\x1b[38;2;1;2;3m\x1b[48;5;16mx"), b"x");
    assert_eq!(strip_escapes(b"up\x1b[2A\x1b[?25l!"), b"up!");
    assert_eq!(strip_escapes(b"\x1b\x1b[0m\x1b"), b"\x1b\x1b");
    assert_eq!(strip_escapes(b"\x1b[12;\x1b[0mz"), b"\x1b[12;z");
    assert_eq!(strip_escapes(b"open \x1b[1"), b"open \x1b[1");
}
