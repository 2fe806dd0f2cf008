use sigdump::text::{chars_of, find, matches_at, rank, replace, string_of, Rank};

fn replaced(text: &str, from: &str, to: &str) -> String {
    string_of(&replace(&chars_of(text), &chars_of(from), &chars_of(to)))
}

#[test]
fn rank_orders_by_code_point() {
    assert_eq!(rank("abc", "abd"), Rank::Lower);
    assert_eq!(rank("abc", "abc"), Rank::Equal);
    assert_eq!(rank("b", "abc"), Rank::Higher);
    assert_eq!(rank("ab", "abc"), Rank::Lower);
    assert_eq!(rank("abc", "ab"), Rank::Higher);
    assert_eq!(rank("", ""), Rank::Equal);
    assert_eq!(rank("", "a"), Rank::Lower);
}

#[test]
fn rank_agrees_with_the_order_of_strings() {
    let words = ["", "_x", "a", "a@@v", "a0", "ab", "b", "foo", "foo@v1", "foo@@v2", "z\u{e9}", "z\u{4e2d}"];
    for a in words.iter() {
        for b in words.iter() {
            let expected = if a < b {
                Rank::Lower
            } else if a == b {
                Rank::Equal
            } else {
                Rank::Higher
            };
            assert_eq!(rank(a, b), expected);
        }
    }
}

#[test]
fn chars_and_strings_convert_both_ways() {
    assert_eq!(chars_of("a\u{e9}z"), vec!['a', '\u{e9}', 'z']);
    assert_eq!(chars_of(""), Vec::<char>::new());
    assert_eq!(string_of(&['v', 'o', 'i', 'd']), "void");
    assert_eq!(string_of(&[]), "");
}

#[test]
fn matches_at_tests_one_position() {
    let text = chars_of("foo@@v2");
    let mark = chars_of("@@");
    assert!(matches_at(&text, &mark, 3));
    assert!(!matches_at(&text, &mark, 4));
    assert!(!matches_at(&text, &mark, 6));
    assert!(!matches_at(&text, &mark, 7));
    assert!(matches_at(&text, &[], 7));
    assert!(!matches_at(&text, &[], 8));
}

#[test]
fn find_gives_the_first_position() {
    assert_eq!(find(&chars_of("foo@@v2@@x"), &chars_of("@@")), Some(3));
    assert_eq!(find(&chars_of("foo@v1"), &chars_of("@@")), None);
    assert_eq!(find(&chars_of("foo@v1"), &chars_of("@")), Some(3));
    assert_eq!(find(&chars_of("abc"), &chars_of("")), Some(0));
    assert_eq!(find(&chars_of(""), &chars_of("")), Some(0));
    assert_eq!(find(&chars_of("ab"), &chars_of("abc")), None);
    assert_eq!(find(&chars_of("xxab"), &chars_of("ab")), Some(2));
}

#[test]
fn replace_substitutes_every_occurrence() {
    assert_eq!(replaced("int bar(int x)", "bar", "bar_impl"), "int bar_impl(int x)");
    assert_eq!(replaced("f f(f f)", "f", "gg"), "gg gg(gg gg)");
    assert_eq!(replaced("aaa", "aa", "b"), "ba");
    assert_eq!(replaced("abc", "x", "y"), "abc");
    assert_eq!(replaced("", "x", "y"), "");
    assert_eq!(replaced("abc", "abc", ""), "");
}

#[test]
fn replace_agrees_with_the_replace_of_strings() {
    let cases = [
        ("int bar(int x)", "bar", "bar_impl"),
        ("aaaa", "aa", "a"),
        ("abab", "ab", "ba"),
        ("abc", "", "-"),
        ("", "", "-"),
        ("void (*signal)(int)", "signal", "sig"),
        ("xyz", "xyzw", "q"),
    ];
    for (text, from, to) in cases.iter() {
        assert_eq!(replaced(text, from, to), text.replace(from, to));
    }
    assert_eq!(replaced("abc", "", "-"), "-a-b-c-");
}
