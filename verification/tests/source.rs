use gll_codegen::pattern::{PatKey, RustInputPat, SPat};
use gll_codegen::text::{decimal_string, escape_backticks_in, is_no_text, joined, same_text};
use gll_codegen::tokens::{quote, quote0, quote1, quote2, quote5, Src, Token};

#[test]
fn numerals_are_decimal() {
    assert_eq!(decimal_string(0), "0");
    assert_eq!(decimal_string(7), "7");
    assert_eq!(decimal_string(10), "10");
    assert_eq!(decimal_string(1203), "1203");
    assert_eq!(decimal_string(usize::MAX), format!("{}", usize::MAX));
}

#[test]
fn numerals_of_distinct_numbers_are_distinct() {
    let all: Vec<String> = (0..300).map(decimal_string).collect();
    for i in 0..all.len() {
        for j in 0..i {
            assert_ne!(all[i], all[j]);
        }
    }
}

#[test]
fn backticks_are_escaped() {
    assert_eq!(escape_backticks_in(""), "");
    assert_eq!(escape_backticks_in("a`b``"), "a\\`b\\`\\`");
    assert_eq!(escape_backticks_in("\\"), "\\");
}

#[test]
fn text_is_joined_and_compared() {
    assert_eq!(joined("f_", "x"), "f_x");
    assert!(same_text("ab", "ab"));
    assert!(!same_text("ab", "a"));
    assert!(is_no_text(""));
    assert!(!is_no_text(" "));
}

#[test]
fn string_literals_are_quoted() {
    assert_eq!(Src::string("ab").to_ugly_string(), "\"ab\"");
    assert_eq!(Src::string("a\"\n").to_ugly_string(), "\"a\\\"\\n\"");
    assert_eq!(Src::string("").to_ugly_string(), "\"\"");
}

#[test]
fn character_literals_are_quoted() {
    assert_eq!(Src::from_token(Token::Char('a')).to_ugly_string(), "'a'");
    assert_eq!(Src::from_token(Token::Char('\'')).to_ugly_string(), "'\\''");
    assert_eq!(Src::from_token(Token::Char('"')).to_ugly_string(), "'\"'");
}

#[test]
fn integer_literals_have_no_suffix() {
    assert_eq!(Src::number(0).to_ugly_string(), "0");
    assert_eq!(Src::number(120).to_ugly_string(), "120");
}

#[test]
fn text_is_source_code_if_it_can_be_split_into_tokens() {
    let src = Src::parse("fn f() { [1, 'a', \"}\"] }");
    assert_eq!(src.unwrap().to_ugly_string(), "fn f() { [1, 'a', \"}\"] }");
    assert!(Src::parse("").is_some());
    assert!(Src::parse("{").is_none());
    assert!(Src::parse("(]").is_none());
    assert!(Src::parse("\"").is_none());
}

#[test]
fn templates_are_filled_in_order() {
    let filled = quote2("if $ { $ }", Src::ident("a"), Src::ident("b"));
    assert_eq!(filled.to_ugly_string(), "if a { b }");
    assert_eq!(filled.len(), 5);
    assert_eq!(quote0("  a\n\n b ").to_ugly_string(), "a b");
    assert_eq!(quote0("").to_ugly_string(), "");
    assert_eq!(quote0("").len(), 0);
}

#[test]
fn a_hole_takes_all_tokens_of_its_argument() {
    let two = Src::ident("a").plus(Src::ident("b"));
    assert_eq!(quote1("( $ )", two).to_ugly_string(), "( a b )");
    assert_eq!(quote1("( $ )", Src::new()).to_ugly_string(), "( )");
    assert_eq!(quote1("$$ a$", Src::ident("x")).to_ugly_string(), "$$ a$");
}

#[test]
fn holes_and_arguments_may_differ_in_number() {
    assert_eq!(quote("$ $", vec![Src::ident("a")]).to_ugly_string(), "a");
    assert_eq!(quote("$", vec![Src::ident("a"), Src::ident("b")]).to_ugly_string(), "a");
    let five = quote5(
        "$ $ $ $ $",
        Src::ident("a"),
        Src::ident("b"),
        Src::ident("c"),
        Src::ident("d"),
        Src::ident("e"),
    );
    assert_eq!(five.to_ugly_string(), "a b c d e");
}

#[test]
fn pretty_text_has_spaces_between_words_only() {
    let src = Src::ident("a").plus(Src::ident("b")).plus(Src::number(1)).plus(Src::ident("c"));
    assert_eq!(src.to_pretty_string(), "a b1c");
    assert_eq!(src.to_ugly_string(), "a b 1 c");
    assert_eq!(Src::new().to_pretty_string(), "");
}

#[test]
fn lists_have_commas_between_their_parts() {
    let mut list = Src::new();
    list.list(Src::ident("a"), true);
    list.list(Src::ident("b"), false);
    list.list(Src::ident("c"), false);
    assert_eq!(list.to_ugly_string(), "a , b , c");
}

#[test]
fn patterns_on_characters_have_matchers() {
    assert_eq!(SPat::rust_slice_ty().to_ugly_string(), "str");
    let string = SPat::String("a\"".to_string());
    assert_eq!(string.rust_matcher().to_ugly_string(), "\"a\\\"\"");
    let range = SPat::Range('a', 'z');
    assert_eq!(range.rust_matcher().to_ugly_string(), "'a' ..= 'z'");
    assert_eq!(range.rust_matcher().to_pretty_string(), "'a'..='z'");
}

#[test]
fn keys_tell_patterns_apart() {
    let pats = [
        SPat::String("".to_string()),
        SPat::String("a".to_string()),
        SPat::String("az".to_string()),
        SPat::Range('a', 'z'),
        SPat::Range('a', 'y'),
    ];
    for i in 0..pats.len() {
        assert_eq!(pats[i].key(), pats[i].key());
        for j in 0..i {
            assert_ne!(pats[i].key(), pats[j].key());
        }
    }
}

#[test]
fn a_zero_before_a_digit_is_escaped_in_full() {
    let text = SPat::String("\u{0}1".to_string()).rust_matcher();
    assert_eq!(text.to_pretty_string(), "\"\\x001\"");
    let other = SPat::String("\u{0}a".to_string()).rust_matcher();
    assert_eq!(other.to_pretty_string(), "\"\\0a\"");
}

#[test]
fn a_pattern_behind_a_reference_is_the_same() {
    let pat = SPat::Range('a', 'z');
    let by_ref: &SPat = &pat;
    assert_eq!(PatKey::key(&by_ref), pat.key());
    assert_eq!(
        RustInputPat::rust_matcher(&by_ref).to_ugly_string(),
        pat.rust_matcher().to_ugly_string(),
    );
    assert_eq!(<&SPat as RustInputPat>::rust_slice_ty().to_ugly_string(), "str");
}
