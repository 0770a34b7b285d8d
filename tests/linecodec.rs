use mudtcp::codec::Decoded;
use mudtcp::linecodec::{decode_line, encode_line, line_outcome, strip_controls, trim_chars};

#[test]
fn strips_controls_and_escape_sequence() {
    let line = "  fo\x18\x01o_b\x1b[1;5Aar  ";
    assert_eq!(decode_line(line), Some("foo_bar".to_string()));
}

#[test]
fn strips_controls_with_terminator() {
    let line = "  fo\x18\x01o_b\x1b[1;5Aar  \n";
    assert_eq!(decode_line(line), Some("foo_bar".to_string()));
}

#[test]
fn escape_drops_the_byte_that_ends_the_sequence() {
    // ESC, '[' (skipped), '2', 'J' (ends the sequence and is dropped)
    assert_eq!(decode_line("a\x1b[2Jb\n"), Some("ab".to_string()));
}

#[test]
fn escape_at_end_of_line() {
    assert_eq!(decode_line("abc\x1b"), Some("abc".to_string()));
    assert_eq!(decode_line("abc\x1b\n"), Some("abc".to_string()));
}

#[test]
fn round_trip_clean_message() {
    for msg in ["hello", "hello world", "a", "héllo wörld ✓", "x  y"] {
        let framed = encode_line(msg);
        assert_eq!(decode_line(&framed), Some(msg.to_string()));
    }
}

#[test]
fn decode_is_identity_on_clean_text() {
    for msg in ["abc", "foo_bar", "1;5A", "ünïcödé"] {
        assert_eq!(decode_line(msg), Some(msg.to_string()));
    }
}

#[test]
fn blank_lines_carry_no_message() {
    assert_eq!(decode_line(""), None);
    assert_eq!(decode_line("\n"), None);
    assert_eq!(decode_line("   \t  \r\n"), None);
    assert_eq!(decode_line("\x01\x02\x7f \x18\n"), None);
    assert_eq!(decode_line("\u{a0}\u{3000}\n"), None);
}

#[test]
fn encode_appends_one_line_feed() {
    assert_eq!(encode_line("hi"), "hi\n");
    assert_eq!(encode_line(""), "\n");
}

#[test]
fn strip_keeps_printable_characters() {
    assert_eq!(strip_controls(" a\tb\n"), vec![' ', 'a', 'b']);
    assert_eq!(strip_controls("\x1bXYz"), vec!['z']);
    assert_eq!(strip_controls("\x1b[12;?!m ok"), vec![' ', 'o', 'k']);
}

#[test]
fn trim_removes_white_space_at_both_ends() {
    let chars: Vec<char> = "  a b \u{2003}".chars().collect();
    assert_eq!(trim_chars(&chars), "a b");
    let empty: Vec<char> = Vec::new();
    assert_eq!(trim_chars(&empty), "");
}

#[test]
fn line_outcome_maps_reads() {
    assert!(matches!(line_outcome(0, ""), Decoded::Closed));
    assert!(matches!(line_outcome(3, " \x01\n"), Decoded::WouldBlock));
    assert!(matches!(line_outcome(5, " hi \n"), Decoded::Message(m) if m == "hi"));
}
