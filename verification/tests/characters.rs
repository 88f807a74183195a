use html_tree::encoding::char_width;
use html_tree::scan::{name_char, whitespace_char};

fn every_char() -> impl Iterator<Item = char> {
    (0u32..=0x10FFFF).filter_map(char::from_u32)
}

#[test]
fn whitespace_is_what_the_standard_library_calls_whitespace() {
    for c in every_char() {
        assert_eq!(whitespace_char(c), c.is_whitespace(), "{:?}", c);
    }
}

#[test]
fn there_are_twenty_five_whitespace_characters() {
    assert_eq!(every_char().filter(|c| whitespace_char(*c)).count(), 25);
    for c in [' ', '\t', '\n', '\u{b}', '\u{c}', '\r', '\u{85}', '\u{a0}', '\u{3000}'] {
        assert!(whitespace_char(c), "{:?}", c);
    }
    for c in ['a', '<', '>', '=', '/', '"', '\'', '0', '\u{200b}', '\u{feff}', '\u{180e}'] {
        assert!(!whitespace_char(c), "{:?}", c);
    }
}

#[test]
fn name_characters_are_the_ascii_letters_and_digits() {
    for c in every_char() {
        assert_eq!(name_char(c), c.is_ascii_alphanumeric(), "{:?}", c);
    }
    assert_eq!(every_char().filter(|c| name_char(*c)).count(), 62);
    for c in ['a', 'z', 'A', 'Z', '0', '9', 'm', 'Q', '5'] {
        assert!(name_char(c));
    }
    for c in ['-', '_', ':', '.', ' ', 'é', 'ß', '٣', '`', '{', '@', '[', '/', ':'] {
        assert!(!name_char(c), "{:?}", c);
    }
}

#[test]
fn the_width_of_a_character_is_the_length_of_its_encoding() {
    for c in every_char() {
        assert_eq!(char_width(c), c.len_utf8(), "{:?}", c);
    }
    assert_eq!(char_width('a'), 1);
    assert_eq!(char_width('\u{7f}'), 1);
    assert_eq!(char_width('\u{80}'), 2);
    assert_eq!(char_width('é'), 2);
    assert_eq!(char_width('\u{7ff}'), 2);
    assert_eq!(char_width('\u{800}'), 3);
    assert_eq!(char_width('世'), 3);
    assert_eq!(char_width('\u{ffff}'), 3);
    assert_eq!(char_width('\u{10000}'), 4);
    assert_eq!(char_width('🦀'), 4);
    assert_eq!(char_width('\u{10ffff}'), 4);
}
