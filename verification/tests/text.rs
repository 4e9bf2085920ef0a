use rust_tokenizers::text::{
    chars_of, find_char, is_whitespace, run_end_at, skip_whitespace, string_of,
};

#[test]
fn whitespace_is_what_std_calls_whitespace() {
    let mut n: u32 = 0;
    while n <= 0x10FFFF {
        if let Some(c) = char::from_u32(n) {
            assert_eq!(is_whitespace(c), c.is_whitespace(), "U+{:04X}", n);
        }
        n += 1;
    }
}

#[test]
fn strings_become_their_characters_and_back() {
    let chars = chars_of("h\u{e9}llo \u{1F601}");
    assert_eq!(chars, vec!['h', '\u{e9}', 'l', 'l', 'o', ' ', '\u{1F601}']);
    assert_eq!(string_of(&chars, 0, chars.len()), "h\u{e9}llo \u{1F601}");
    assert_eq!(string_of(&chars, 1, 3), "\u{e9}l");
    assert_eq!(string_of(&chars, 4, 4), "");
    assert_eq!(chars_of(""), Vec::<char>::new());
}

#[test]
fn find_char_stops_at_the_first_occurrence() {
    let chars = chars_of("ab cd ef");
    assert_eq!(find_char(&chars, 0, chars.len(), ' '), 2);
    assert_eq!(find_char(&chars, 3, chars.len(), ' '), 5);
    assert_eq!(find_char(&chars, 6, chars.len(), ' '), 8);
    assert_eq!(find_char(&chars, 0, 2, ' '), 2);
    assert_eq!(find_char(&chars, 2, 2, ' '), 2);
}

#[test]
fn leading_whitespace_is_skipped_as_std_trims_it() {
    for text in ["", " ", "a", "  a b \t", "\u{2003}x\u{85}", "\r\n", "x  ", "  x"] {
        let chars = chars_of(text);
        let at = skip_whitespace(&chars, 0, chars.len());
        assert_eq!(string_of(&chars, at, chars.len()), text.trim_start());
    }
    let chars = chars_of("ab  cd");
    assert_eq!(skip_whitespace(&chars, 2, 4), 4);
    assert_eq!(skip_whitespace(&chars, 1, 5), 1);
}

#[test]
fn a_run_ends_at_the_first_whitespace() {
    let chars = chars_of("ab\tcd e");
    assert_eq!(run_end_at(&chars, 0, chars.len()), 2);
    assert_eq!(run_end_at(&chars, 2, chars.len()), 2);
    assert_eq!(run_end_at(&chars, 3, chars.len()), 5);
    assert_eq!(run_end_at(&chars, 6, chars.len()), 7);
    assert_eq!(run_end_at(&chars, 3, 4), 4);
    assert_eq!(run_end_at(&chars, 7, 7), 7);
}
