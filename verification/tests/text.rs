use duplicant::text::strip_whitespace;

#[test]
fn strips_every_kind_of_white_space() {
    assert_eq!(strip_whitespace(" a\tb \u{a0}c\u{2003}\u{3000}d\r\n"), "abcd");
    assert_eq!(strip_whitespace(""), "");
    assert_eq!(strip_whitespace(" \t "), "");
    assert_eq!(strip_whitespace("abc"), "abc");
}

#[test]
fn keeps_what_only_looks_like_white_space() {
    // A zero width space and a zero width no-break space are no white space.
    assert_eq!(strip_whitespace("a\u{200b}b\u{feff}c"), "a\u{200b}b\u{feff}c");
}

#[test]
fn white_space_is_the_same_set_for_all_characters() {
    let white: Vec<u32> = vec![
        0x09, 0x0a, 0x0b, 0x0c, 0x0d, 0x20, 0x85, 0xa0, 0x1680, 0x2000, 0x2001, 0x2002, 0x2003,
        0x2004, 0x2005, 0x2006, 0x2007, 0x2008, 0x2009, 0x200a, 0x2028, 0x2029, 0x202f, 0x205f,
        0x3000,
    ];
    for u in 0..=0x10ffffu32 {
        if let Some(c) = char::from_u32(u) {
            let stripped = strip_whitespace(&c.to_string());
            if white.contains(&u) {
                assert_eq!(stripped, "");
            } else {
                assert_eq!(stripped, c.to_string());
            }
        }
    }
}

#[test]
fn stripping_twice_is_stripping_once() {
    let once = strip_whitespace("  fn main ( ) { }  ");
    assert_eq!(once, "fnmain(){}");
    assert_eq!(strip_whitespace(&once), once);
}
