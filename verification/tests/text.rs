use rpx_patch::text::{
    chars_of, contains, decimal_digits, ends_with, matches_at, replace_all, slice_chars,
    starts_with, string_of,
};

fn replaced(text: &str, pattern: &str, replacement: &str) -> String {
    string_of(&replace_all(
        &chars_of(text),
        &chars_of(pattern),
        &chars_of(replacement),
    ))
}

#[test]
fn chars_and_strings_convert_both_ways() {
    assert_eq!(chars_of("a€c"), vec!['a', '€', 'c']);
    assert_eq!(string_of(&vec!['a', '€', 'c']), "a€c");
    assert_eq!(string_of(&chars_of("")), "");
}

#[test]
fn slice_takes_the_range() {
    assert_eq!(slice_chars(&chars_of("abcdef"), 2, 4), vec!['c', 'd']);
    assert_eq!(slice_chars(&chars_of("abcdef"), 3, 3), Vec::<char>::new());
}

#[test]
fn matches_at_checks_one_place() {
    let text = chars_of("hello world");
    assert!(matches_at(&text, &chars_of("world"), 6));
    assert!(!matches_at(&text, &chars_of("world"), 5));
    assert!(!matches_at(&text, &chars_of("world"), 7));
    assert!(matches_at(&text, &chars_of(""), 11));
    assert!(!matches_at(&text, &chars_of(""), 12));
}

#[test]
fn prefix_suffix_and_search() {
    let text = chars_of("patch_Main.asm");
    assert!(starts_with(&text, &chars_of("patch")));
    assert!(!starts_with(&text, &chars_of("Patch")));
    assert!(ends_with(&text, &chars_of(".asm")));
    assert!(!ends_with(&text, &chars_of("patch_Main.asm.")));
    assert!(contains(&text, &chars_of("_Main")));
    assert!(contains(&text, &chars_of("")));
    assert!(!contains(&text, &chars_of("main")));
    assert!(contains(&chars_of(""), &chars_of("")));
    assert!(!contains(&chars_of(""), &chars_of("a")));
}

#[test]
fn replace_all_agrees_with_the_standard_library() {
    let cases = [
        ("", "", "x"),
        ("ab", "", "x"),
        ("", "a", "x"),
        ("aaa", "aa", "b"),
        ("abcabc", "bc", ""),
        ("abcabc", "abc", "abcabc"),
        ("$fps and $fpsLimit", "$fps", "60"),
        ("no match here", "xyz", "!"),
        ("ünïcödé ü", "ü", "ue"),
    ];
    for (text, pattern, replacement) in cases {
        assert_eq!(
            replaced(text, pattern, replacement),
            text.replace(pattern, replacement)
        );
    }
}

#[test]
fn replace_all_exact_values() {
    assert_eq!(replaced("ab", "", "x"), "xaxbx");
    assert_eq!(replaced("aaa", "aa", "b"), "ba");
    assert_eq!(replaced("$fps and $fpsLimit", "$fps", "60"), "60 and 60Limit");
}

#[test]
fn decimal_digits_of_numbers() {
    assert_eq!(string_of(&decimal_digits(0)), "0");
    assert_eq!(string_of(&decimal_digits(7)), "7");
    assert_eq!(string_of(&decimal_digits(10)), "10");
    assert_eq!(string_of(&decimal_digits(65535)), "65535");
    assert_eq!(
        string_of(&decimal_digits(u128::MAX)),
        "340282366920938463463374607431768211455"
    );
}
