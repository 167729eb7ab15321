use rpow_miner::text::{
    clip, decimal_string, is_clean_cut, is_white_space, parse_count, trimmed_string,
};

#[test]
fn decimal_text_of_numbers() {
    assert_eq!(decimal_string(0), "0");
    assert_eq!(decimal_string(9), "9");
    assert_eq!(decimal_string(10), "10");
    assert_eq!(decimal_string(1203), "1203");
    assert_eq!(decimal_string(u64::MAX), "18446744073709551615");
}

#[test]
fn decimal_text_reads_back() {
    for n in [0usize, 7, 10, 99, 100, 65536, usize::MAX] {
        assert_eq!(parse_count(&decimal_string(n as u64)), Some(n));
    }
}

#[test]
fn counts_agree_with_the_standard_library() {
    for text in [
        "", "+", "-", "0", "007", "+8", "-8", "++8", "8+", " 8", "8 ", "1_0", "0x1", "\u{663}",
        "18446744073709551615", "18446744073709551616", "99999999999999999999999",
        "0000000000000000000000000000018446744073709551615",
    ] {
        assert_eq!(parse_count(text), text.parse::<usize>().ok());
    }
}

#[test]
fn white_space_agrees_with_the_standard_library() {
    for p in 0..=0x10ffffu32 {
        if let Some(c) = char::from_u32(p) {
            assert_eq!(is_white_space(c), c.is_whitespace());
        }
    }
}

#[test]
fn trimming_a_part() {
    let chars: Vec<char> = "x  a b \n y".chars().collect();
    assert_eq!(trimmed_string(&chars, 1, 9), "a b");
    assert_eq!(trimmed_string(&chars, 1, 3), "");
    assert_eq!(trimmed_string(&chars, 0, 10), "x  a b \n y");
}

#[test]
fn clipping_keeps_the_beginning() {
    assert_eq!(clip("abcdef", 4), "abcd");
    assert_eq!(clip("abc", 4), "abc");
    assert_eq!(clip("", 4), "");
    assert_eq!(clip("a\u{e9}b", 3), "a\u{e9}");
}

#[test]
fn cuts_inside_characters_are_noticed() {
    assert!(is_clean_cut("abc", 2));
    assert!(is_clean_cut("a\u{e9}", 1));
    assert!(!is_clean_cut("a\u{e9}", 2));
    assert!(is_clean_cut("a\u{e9}", 3));
    assert!(is_clean_cut("a\u{e9}", 100));
}
