use dust::text::{
    chars_of, copy_strings, parse_unsigned, replace_all, same_strings, same_text, string_of,
    to_decimal,
};

#[test]
fn decimal_of_small_numbers() {
    assert_eq!(to_decimal(0), "0");
    assert_eq!(to_decimal(9), "9");
    assert_eq!(to_decimal(10), "10");
    assert_eq!(to_decimal(31), "31");
    assert_eq!(to_decimal(200), "200");
}

#[test]
fn decimal_of_the_largest_number() {
    assert_eq!(to_decimal(u64::MAX), "18446744073709551615");
    assert_eq!(to_decimal(u64::MAX), u64::MAX.to_string());
}

#[test]
fn decimal_agrees_with_std() {
    let mut n: u64 = 1;
    while n < 1_000_000_000_000 {
        assert_eq!(to_decimal(n), n.to_string());
        assert_eq!(to_decimal(n - 1), (n - 1).to_string());
        n *= 7;
    }
}

#[test]
fn unsigned_numerals_are_read() {
    assert_eq!(parse_unsigned("0"), Some(0));
    assert_eq!(parse_unsigned("5"), Some(5));
    assert_eq!(parse_unsigned("31"), Some(31));
    assert_eq!(parse_unsigned("+7"), Some(7));
    assert_eq!(parse_unsigned("0031"), Some(31));
    assert_eq!(parse_unsigned("18446744073709551615"), "18446744073709551615".parse::<usize>().ok());
}

#[test]
fn other_texts_are_no_numerals() {
    assert_eq!(parse_unsigned(""), None);
    assert_eq!(parse_unsigned("+"), None);
    assert_eq!(parse_unsigned("-1"), None);
    assert_eq!(parse_unsigned("1a"), None);
    assert_eq!(parse_unsigned(" 1"), None);
    assert_eq!(parse_unsigned("1 "), None);
    assert_eq!(parse_unsigned("++1"), None);
    assert_eq!(parse_unsigned("1.0"), None);
    assert_eq!(parse_unsigned("٣"), None);
}

#[test]
fn numerals_beyond_the_word_are_refused() {
    assert_eq!(parse_unsigned("99999999999999999999999"), None);
    assert_eq!(parse_unsigned("18446744073709551616"), None);
}

#[test]
fn unsigned_agrees_with_std() {
    for text in ["0", "12", "+12", "", "+", "-0", "00", "4294967295", "4294967296", "x", "1_0"] {
        assert_eq!(parse_unsigned(text), text.parse::<usize>().ok(), "{}", text);
    }
}

#[test]
fn replace_all_replaces_every_occurrence() {
    assert_eq!(replace_all("a-b-c", "-", "+"), "a+b+c");
    assert_eq!(replace_all("abc", "x", "y"), "abc");
    assert_eq!(replace_all("", "x", "y"), "");
    assert_eq!(replace_all("xx", "x", ""), "");
}

#[test]
fn replace_all_goes_from_the_left_without_overlap() {
    assert_eq!(replace_all("aaa", "aa", "b"), "ba");
    assert_eq!(replace_all("aaaa", "aa", "b"), "bb");
    assert_eq!(replace_all("abab", "aba", "x"), "xb");
}

#[test]
fn replace_all_leaves_the_text_for_an_empty_pattern() {
    assert_eq!(replace_all("abc", "", "-"), "abc");
}

#[test]
fn replace_all_agrees_with_std() {
    let cases = [
        ("_fun = (env) => `<DUST_TRIPLE_BACKTICKS>`", "<DUST_TRIPLE_BACKTICKS>", "```"),
        ("héllo wörld héllo", "héllo", "hi"),
        ("aXbXc", "X", "XX"),
        ("<<>>", "<>", ""),
    ];
    for (text, from, to) in cases {
        assert_eq!(replace_all(text, from, to), text.replace(from, to));
    }
}

#[test]
fn same_text_compares_characters() {
    assert!(same_text("query", "query"));
    assert!(!same_text("query", "engine"));
    assert!(!same_text("query", "quer"));
    assert!(!same_text("query", "querz"));
    assert!(same_text("", ""));
    assert!(same_text("é", "é"));
    assert!(!same_text("é", "e"));
}

#[test]
fn chars_and_strings_round_trip() {
    let chars = chars_of("héllo");
    assert_eq!(chars, vec!['h', 'é', 'l', 'l', 'o']);
    assert_eq!(string_of(&chars), "héllo");
    assert_eq!(chars_of(""), Vec::<char>::new());
}

#[test]
fn lists_of_strings_are_copied_and_compared() {
    let a = vec![String::from("x"), String::from(""), String::from("é")];
    let b = copy_strings(&a);
    assert_eq!(a, b);
    assert!(same_strings(&a, &b));
    assert!(!same_strings(&a, &vec![String::from("x"), String::from("")]));
    assert!(!same_strings(&a, &vec![String::from("x"), String::from(""), String::from("e")]));
    assert!(same_strings(&Vec::new(), &Vec::new()));
}
