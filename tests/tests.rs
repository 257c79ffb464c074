use simplecc::text::line_has_empty_key;
use simplecc::Dict;

#[test]
fn test_prefix_match() {
    let dict = Dict::load_str("
A\ta'
B\tb' x
C\tc' x xx
ABC\tabc'
ABCD\tabcd'
DDD\tddd'
BB\tbb'");
    assert_eq!(Some(("A", "a'")), dict.roots()[0].prefix_match("A"));
    assert_eq!(Some(("B", "b'")), dict.roots()[0].prefix_match("BXX"));
    assert_eq!(Some(("ABC", "abc'")), dict.roots()[0].prefix_match("ABCX"));
    assert_eq!(Some(("ABCD", "abcd'")), dict.roots()[0].prefix_match("ABCDEFG"));
    assert_eq!(None, dict.roots()[0].prefix_match("X"));
    assert_eq!(None, dict.roots()[0].prefix_match("DD"));
}

#[test]
fn test_dict_simple() {
    let dict = Dict::load_str("
A\ta
B\tb
ABC\txxx
");
    assert_eq!("a", dict.replace_all("A"));
    assert_eq!("ab", dict.replace_all("AB"));
    assert_eq!("xxx", dict.replace_all("ABC"));
    assert_eq!("abxxxa", dict.replace_all("ABABCA"));
    assert_eq!("aXbXab", dict.replace_all("AXBXAB"));
}

#[test]
fn prefix_match_empty_query_and_empty_tree() {
    let dict = Dict::load_str("A\ta");
    assert_eq!(None, dict.roots()[0].prefix_match(""));
    let empty = Dict::load_str("");
    assert_eq!(None, empty.roots()[0].prefix_match("A"));
}

#[test]
fn prefix_match_backtracks_to_shorter_key() {
    let dict = Dict::load_str("AB\tx\nABCD\ty");
    assert_eq!(Some(("AB", "x")), dict.roots()[0].prefix_match("ABCE"));
    assert_eq!(Some(("AB", "x")), dict.roots()[0].prefix_match("ABX"));
}

#[test]
fn empty_dictionary_keeps_text() {
    let dict = Dict::load_str("");
    assert_eq!("hello, 世界\tA\n", dict.replace_all("hello, 世界\tA\n"));
    assert_eq!("", dict.replace_all(""));
}

#[test]
fn empty_input_gives_empty_output() {
    let dict = Dict::load_str("A\ta");
    assert_eq!("", dict.replace_all(""));
}

#[test]
fn chain_applies_left_layers_first() {
    let chars = Dict::load_str("A\tB");
    let phrases = Dict::load_str("BB\tz");
    assert_eq!("z", chars.chain(phrases).replace_all("AB"));
    let chars = Dict::load_str("A\tB");
    let phrases = Dict::load_str("BB\tz");
    assert_eq!("BB", phrases.chain(chars).replace_all("AB"));
}

#[test]
fn chain_is_associative_in_effect() {
    let make = || {
        (
            Dict::load_str("a\tb"),
            Dict::load_str("b\tc"),
            Dict::load_str("cc\td"),
        )
    };
    let (d1, d2, d3) = make();
    let left = d1.chain(d2).chain(d3);
    let (d1, d2, d3) = make();
    let right = d1.chain(d2.chain(d3));
    assert_eq!(3, left.roots().len());
    assert_eq!("dx", left.replace_all("abx"));
    assert_eq!("dx", right.replace_all("abx"));
}

#[test]
fn later_line_overwrites_same_key() {
    let dict = Dict::load_str("A\tx\nA\ty");
    assert_eq!("y", dict.replace_all("A"));
    assert_eq!(Some(("A", "y")), dict.roots()[0].prefix_match("A"));
}

#[test]
fn malformed_lines_are_skipped() {
    let dict = Dict::load_str("no tab here\nB\t\nC\t x\nA\ta");
    assert_eq!("aBC", dict.replace_all("ABC"));
    assert_eq!(None, dict.roots()[0].prefix_match("no tab here"));
    assert_eq!(None, dict.roots()[0].prefix_match("B"));
}

#[test]
fn only_first_alternative_is_used() {
    let dict = Dict::load_str("C\tc' x xx\nD\td\textra");
    assert_eq!("c'd\textra", dict.replace_all("CD"));
}

#[test]
fn crlf_line_endings_are_stripped() {
    let dict = Dict::load_str("A\ta\r\nB\tb\r\n");
    assert_eq!("ab", dict.replace_all("AB"));
}

#[test]
fn identity_rules_keep_every_character() {
    let dict = Dict::load_str("AB\tAB\nB\tB\nABC\tABC\n中文\t中文");
    let text = "ABABCXBA中文中";
    assert_eq!(text, dict.replace_all(text));
}

#[test]
fn value_length_is_independent_of_key_length() {
    let dict = Dict::load_str("ABC\tx\nD\tlonger");
    assert_eq!("xlongerx", dict.replace_all("ABCDABC"));
}

#[test]
fn unicode_rules_convert() {
    let dict = Dict::load_str("简\t簡\n简体\t簡體\n体\t體");
    assert_eq!("簡體字簡", dict.replace_all("简体字简"));
    assert_eq!("體簡", dict.replace_all("体简"));
}

#[test]
fn load_lines_matches_load_str() {
    let dict = Dict::load_lines(&["A\ta", "no tab", "B\tb x", "ABC\txxx"]);
    assert_eq!("abxxxa", dict.replace_all("ABABCA"));
}

#[test]
fn empty_key_lines_are_detected() {
    assert!(line_has_empty_key("\tx"));
    assert!(line_has_empty_key("\tx y"));
    assert!(!line_has_empty_key("\t"));
    assert!(!line_has_empty_key("\t y"));
    assert!(!line_has_empty_key("A\tx"));
    assert!(!line_has_empty_key("no tab"));
}

#[test]
fn empty_key_line_loads_but_is_shorter_than_real_keys() {
    let dict = Dict::load_str("\tx\nA\ta");
    assert_eq!(Some(("A", "a")), dict.roots()[0].prefix_match("AB"));
    assert_eq!(Some(("", "x")), dict.roots()[0].prefix_match("B"));
}

#[test]
fn cloned_dictionary_chains_like_the_original() {
    let base = Dict::load_str("A\tB\nCD\tcd\nCDE\tcde");
    let variants = Dict::load_str("BB\tz");
    let chained = base.clone().chain(variants);
    assert_eq!("Bcdecd", base.replace_all("ACDECD"));
    assert_eq!("zcd", chained.replace_all("ABCD"));
    let layer = base.roots()[0].clone();
    assert_eq!(Some(("CDE", "cde")), layer.prefix_match("CDEF"));
    assert_eq!(Some(("CD", "cd")), layer.prefix_match("CDF"));
}
