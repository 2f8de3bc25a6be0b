use tosh::text::{char_is_whitespace, chars_of, split_on, split_whitespace, trim_bounds};

#[test]
fn split_on_keeps_empty_pieces() {
    assert_eq!(split_on("a::b", ':'), vec!["a", "", "b"]);
    assert_eq!(split_on("", ':'), vec![""]);
    assert_eq!(split_on(":", ':'), vec!["", ""]);
    assert_eq!(split_on("abc", ':'), vec!["abc"]);
}

#[test]
fn split_whitespace_gives_words() {
    let chars = chars_of("  ls \t -l\u{a0}x ");
    assert_eq!(split_whitespace(&chars, 0), vec!["ls", "-l", "x"]);
    assert_eq!(split_whitespace(&chars, 4), vec!["-l", "x"]);
}

#[test]
fn trim_bounds_drop_white_space_at_the_ends() {
    let chars = chars_of(" \t exit \n");
    assert_eq!(trim_bounds(&chars), (3, 7));
    let blank = chars_of("   ");
    let (a, b) = trim_bounds(&blank);
    assert_eq!(a, b);
}

#[test]
fn white_space_is_unicode_white_space() {
    for v in 0..=0x10FFFFu32 {
        if let Some(c) = char::from_u32(v) {
            assert_eq!(char_is_whitespace(c), c.is_whitespace(), "{:x}", v);
        }
    }
}
