use coreutils::wc::{bytes_to_chars, count_all, count_bytes, utf8_char_width, UncheckedChar};

#[test]
fn count_bytes_adds_stripped_delimiter() {
    // A chunk arrives with its trailing newline stripped; the count adds it
    // back: one byte and one line beyond what the chunk holds.
    let (bytes, lines) = count_bytes(&b"one\ntwo\nthree".to_vec());
    assert_eq!(bytes, 14);
    assert_eq!(lines, 3);
}

#[test]
fn count_bytes_empty_chunk() {
    let (bytes, lines) = count_bytes(&Vec::new());
    assert_eq!(bytes, 1);
    assert_eq!(lines, 1);
}

#[test]
fn utf8_widths() {
    assert_eq!(utf8_char_width(b'a'), 1);
    assert_eq!(utf8_char_width(0x80), 0);
    assert_eq!(utf8_char_width(0xC1), 0);
    assert_eq!(utf8_char_width(0xC3), 2);
    assert_eq!(utf8_char_width(0xE2), 3);
    assert_eq!(utf8_char_width(0xF0), 4);
    assert_eq!(utf8_char_width(0xF5), 0);
}

#[test]
fn bytes_to_chars_decodes_by_width() {
    // "hé" in UTF-8: 'h', then a two-byte character.
    let data = vec![b'h', 0xC3, 0xA9];
    let chars = bytes_to_chars(&data).unwrap();
    assert_eq!(chars.len(), 2);
    assert_eq!(chars[0].1, 1);
    assert_eq!(chars[0].0[0], b'h');
    assert_eq!(chars[1].1, 2);
    assert_eq!(chars[1].0[0], 0xC3);
    assert_eq!(chars[1].0[1], 0xA9);
}

#[test]
fn bytes_to_chars_rejects_bad_input() {
    // A lone continuation byte cannot lead a character.
    assert!(bytes_to_chars(&vec![0x80]).is_none());
    // A two-byte character cut off at the end of the block.
    assert!(bytes_to_chars(&vec![b'a', 0xC3]).is_none());
}

#[test]
fn count_all_quantities() {
    // Words split on control whitespace (bytes 9 through 14) only: a plain
    // space keeps its neighbours in one word.
    let chars = bytes_to_chars(&b"hello world\nhi\n".to_vec()).unwrap();
    let (bytes, chars_n, words, lines, max_line_length) = count_all(&chars);
    assert_eq!(bytes, 15);
    assert_eq!(chars_n, 15);
    assert_eq!(words, 2);
    assert_eq!(lines, 2);
    assert_eq!(max_line_length, 11);
}

#[test]
fn count_all_splits_words_on_tabs() {
    let chars = bytes_to_chars(&b"one\ttwo\tthree\n".to_vec()).unwrap();
    let (_, _, words, lines, _) = count_all(&chars);
    assert_eq!(words, 3);
    assert_eq!(lines, 1);
}

#[test]
fn count_all_unterminated_chunk() {
    // No trailing newline: the stripped delimiter is added back.
    let chars = bytes_to_chars(&b"one\ttwo".to_vec()).unwrap();
    let (bytes, chars_n, words, lines, max_line_length) = count_all(&chars);
    assert_eq!(bytes, 8);
    assert_eq!(chars_n, 8);
    assert_eq!(words, 2);
    assert_eq!(lines, 1);
    // Only newline-terminated lines update the maximum.
    assert_eq!(max_line_length, 0);
}

#[test]
fn count_all_multibyte_counts_chars_once() {
    let chars = bytes_to_chars(&vec![0xC3, 0xA9, 9, 0xC3, 0xA9, b'\n']).unwrap();
    let (bytes, chars_n, words, lines, max_line_length) = count_all(&chars);
    assert_eq!(bytes, 6);
    assert_eq!(chars_n, 4);
    assert_eq!(words, 2);
    assert_eq!(lines, 1);
    assert_eq!(max_line_length, 3);
}

#[test]
fn count_all_empty() {
    let chars: Vec<UncheckedChar> = Vec::new();
    let (bytes, chars_n, words, lines, max_line_length) = count_all(&chars);
    assert_eq!(bytes, 1);
    assert_eq!(chars_n, 1);
    assert_eq!(words, 0);
    assert_eq!(lines, 1);
    assert_eq!(max_line_length, 0);
}
