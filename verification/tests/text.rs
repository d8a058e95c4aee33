use mc_mot::text::{
    chars_of, contains, equal, find, parse, position, rest_after_last, to_decimal, to_hexadecimal,
    trim, trim_end_of, trim_start_of, Class,
};

fn chars(s: &str) -> Vec<char> {
    s.chars().collect()
}

#[test]
fn characters_of_a_string() {
    assert_eq!(chars_of("aß€"), vec!['a', 'ß', '€']);
    assert_eq!(chars_of(""), vec![]);
}

#[test]
fn white_space_is_that_of_unicode() {
    for c in '\0'..=char::MAX {
        assert_eq!(Class::WhiteSpace.contains(c), c.is_whitespace());
    }
}

#[test]
fn positions_of_characters() {
    let s = chars("a, b}");
    assert_eq!(position(&s, Class::Only(' ')), Some(2));
    assert_eq!(position(&s, Class::Either('}', ',')), Some(1));
    assert_eq!(position(&s, Class::Only('x')), None);
    assert_eq!(position(&s, Class::WhiteSpace), Some(2));
}

#[test]
fn trimming() {
    let s = chars(" \t a b\u{3000}\n");
    assert_eq!(trim(&s), chars("a b"));
    assert_eq!(trim(&chars("  ")), chars(""));
    assert_eq!(trim_start_of(&chars("((1)"), Class::Only('(')), chars("1)"));
    assert_eq!(trim_end_of(&chars("1))"), Class::Only(')')), chars("1"));
}

#[test]
fn searching() {
    let s = chars("abcabd");
    assert_eq!(find(&s, &chars("ab")), Some(0));
    assert_eq!(find(&s, &chars("abd")), Some(3));
    assert_eq!(find(&s, &chars("abe")), None);
    assert_eq!(find(&s, &chars("")), Some(0));
    assert_eq!(find(&chars(""), &chars("")), Some(0));
    assert_eq!(find(&chars("a"), &chars("ab")), None);
    assert!(contains(&s, &chars("cab")));
    assert!(!contains(&s, &chars("cba")));
}

#[test]
fn equality_of_slices() {
    assert!(equal(&chars("abc"), &chars("abc")));
    assert!(!equal(&chars("abc"), &chars("abd")));
    assert!(!equal(&chars("abc"), &chars("ab")));
    assert!(equal(&[], &[]));
}

#[test]
fn rest_after_a_character() {
    assert_eq!(rest_after_last(&chars("a_b_c"), '_'), chars("c"));
    assert_eq!(rest_after_last(&chars("abc"), '_'), chars("abc"));
    assert_eq!(rest_after_last(&chars("abc_"), '_'), chars(""));
}

#[test]
fn numbers_are_read_as_std_reads_them() {
    for s in [
        "0",
        "7",
        "+7",
        "007",
        "123456789",
        "18446744073709551615",
        "18446744073709551616",
        "99999999999999999999",
        "",
        "+",
        "-1",
        "-0",
        "++1",
        "1+",
        " 1",
        "1 ",
        "1_000",
        "0x10",
        "٣",
        "a",
        "000000000000000000000000000000001",
    ] {
        assert_eq!(parse(&chars(s), u64::MAX), s.parse::<u64>().ok());
        assert_eq!(parse(&chars(s), 255), s.parse::<u8>().ok().map(u64::from));
    }
}

#[test]
fn numbers_are_written_as_std_writes_them() {
    for n in [0, 9, 10, 15, 16, 255, 256, 99999, u64::MAX] {
        assert_eq!(to_decimal(n), format!("{n}"));
        assert_eq!(to_hexadecimal(n), format!("{n:x}"));
        assert_eq!(parse(&chars(&to_decimal(n)), u64::MAX), Some(n));
    }
}
