use regexlib::error::RegexError;
use regexlib::{is_match, matcher};

fn matches(pattern: &str, input: &str) -> bool {
    matcher(pattern).unwrap().matches(input)
}

#[test]
fn test_matcher() {
    let https_matcher =
        matcher("https?://(([A-Za-z.]+/)+([A-Za-z.]+)?)|([A-Za-z.]+)").unwrap();
    assert_eq!(https_matcher.matches("http://test"), true);
    assert_eq!(https_matcher.matches("http:/"), false);
    assert_eq!(https_matcher.matches("http://"), false);
    assert_eq!(
        https_matcher.matches("http://example.com/this/is/a/test/page.html"),
        true
    );
    assert_eq!(https_matcher.matches(""), false);
    assert_eq!(
        https_matcher.matches("The quick brown fox jumped over the lazy dog."),
        false
    );
}

#[test]
fn url_pattern_has_a_literal_prefix() {
    let https_matcher =
        matcher("https?://(([A-Za-z.]+/)+([A-Za-z.]+)?)|([A-Za-z.]+)").unwrap();
    let prefix: String = https_matcher.prefix().iter().collect();
    assert_eq!(prefix, "ht");
    assert_eq!(https_matcher.matches("https://test"), true);
    assert_eq!(https_matcher.matches("httpx://test"), false);
    assert_eq!(https_matcher.matches("xttp://test"), false);
    assert_eq!(https_matcher.matches("htt"), false);
}

#[test]
fn bounded_repetition() {
    assert_eq!(matches("a{2,3}", "a"), false);
    assert_eq!(matches("a{2,3}", "aa"), true);
    assert_eq!(matches("a{2,3}", "aaa"), true);
    assert_eq!(matches("a{2,3}", "aaaa"), false);
}

#[test]
fn digits() {
    assert_eq!(matches(r"\d+", "12"), true);
    assert_eq!(matches(r"\d+", "12a"), false);
    assert_eq!(matches(r"\d+", ""), false);
    assert_eq!(matches(r"\D+", "ab"), true);
    assert_eq!(matches(r"\D+", "a1"), false);
}

#[test]
fn negated_brackets() {
    assert_eq!(matches("[^abc]+", "xyz"), true);
    assert_eq!(matches("[^abc]+", "xay"), false);
}

#[test]
fn alternation_in_a_loop() {
    assert_eq!(matches("((ab)|(cd))*", ""), true);
    assert_eq!(matches("((ab)|(cd))*", "abcd"), true);
    assert_eq!(matches("((ab)|(cd))*", "abc"), false);
    assert_eq!(matches("((ab)|(cd))*", "cdab"), true);
}

#[test]
fn alternation_binds_its_two_neighbours_only() {
    // A bar joins the item before it and the item after it, so this
    // pattern reads `a`, then `b` or `c`, then `d`, any number of times.
    assert_eq!(matches("(ab|cd)*", ""), true);
    assert_eq!(matches("(ab|cd)*", "abc"), false);
    assert_eq!(matches("(ab|cd)*", "abd"), true);
    assert_eq!(matches("(ab|cd)*", "acdabd"), true);
    assert_eq!(matches("(ab|cd)*", "abcd"), false);
}

#[test]
fn uppercase_letters() {
    assert_eq!(matches(r"\p{Lu}+", "ABC"), true);
    assert_eq!(matches(r"\p{Lu}+", "AbC"), false);
    assert_eq!(matches(r"\P{Lu}+", "abc"), true);
    assert_eq!(matches(r"\P{Lu}+", "aBc"), false);
    assert_eq!(matches(r"\pL+", "aBcÄé"), true);
    assert_eq!(matches(r"\pL+", "aB1"), false);
    assert_eq!(matches(r"\PL+", "12 3"), true);
    assert_eq!(matches(r"\p{Uppercase_Letter}", "Ä"), true);
}

#[test]
fn empty_input() {
    assert_eq!(matches(".*", ""), true);
    assert_eq!(matches(".+", ""), false);
    assert_eq!(matches("a?", ""), true);
    assert_eq!(matches("a", ""), false);
    assert_eq!(matches("", ""), true);
    assert_eq!(matches("", "a"), false);
    assert_eq!(matches("()", ""), true);
}

#[test]
fn only_a_literal_prefix() {
    let literal = matcher("hello").unwrap();
    assert_eq!(literal.matches("hello"), true);
    assert_eq!(literal.matches("hell"), false);
    assert_eq!(literal.matches("hello!"), false);
    assert_eq!(literal.matches("jello"), false);
    let prefix: String = literal.prefix().iter().collect();
    assert_eq!(prefix, "hell");
}

#[test]
fn deep_nesting() {
    let pattern = "((a|b)+(c(d|e)*){2}|(f(g(h)?)*)+)*x";
    assert_eq!(matches(pattern, "x"), true);
    assert_eq!(matches(pattern, "abccx"), true);
    assert_eq!(matches(pattern, "acdecx"), true);
    assert_eq!(matches(pattern, "afghgfx"), true);
    assert_eq!(matches(pattern, "fghgfx"), false);
    assert_eq!(matches(pattern, "acdefgccx"), false);
    assert_eq!(matches(pattern, "acdecafgx"), true);
    assert_eq!(matches(pattern, "acdecfgx"), false);
    assert_eq!(matches(pattern, "acx"), false);
    assert_eq!(matches(pattern, "hx"), false);
}

#[test]
fn repetition_bounds() {
    assert_eq!(matches("a{0,0}", ""), true);
    assert_eq!(matches("a{0,0}", "a"), false);
    assert_eq!(matches("xa{0,0}y", "xy"), true);
    assert_eq!(matches("xa{,0}y", "xy"), true);
    assert_eq!(matches("xa{,0}y", "xay"), false);
    assert_eq!(matches("a{3}", "aa"), false);
    assert_eq!(matches("a{3}", "aaa"), true);
    assert_eq!(matches("a{3}", "aaaa"), false);
    assert_eq!(matches("a{2,}", "a"), false);
    assert_eq!(matches("a{2,}", "aa"), true);
    assert_eq!(matches("a{2,}", "aaaaaaa"), true);
    assert_eq!(matches("a{,2}", ""), true);
    assert_eq!(matches("a{,2}", "aa"), true);
    assert_eq!(matches("a{,2}", "aaa"), false);
    assert_eq!(matches("a{,}", ""), true);
    assert_eq!(matches("a{,}", "aaaa"), true);
    assert_eq!(matches("(ab){2}", "abab"), true);
    assert_eq!(matches("(ab){2}", "ab"), false);
}

#[test]
fn any_character_and_classes() {
    assert_eq!(matches("a.c", "abc"), true);
    assert_eq!(matches("a.c", "aéc"), true);
    assert_eq!(matches("a.c", "ac"), false);
    assert_eq!(matches("[a-c]x", "bx"), true);
    assert_eq!(matches("[a-c]x", "dx"), false);
    assert_eq!(matches("[ab^c]", "a"), true);
    assert_eq!(matches("[ab^c]", "c"), false);
    assert_eq!(matches("[ab^c]", "z"), true);
}

#[test]
fn compilation_errors() {
    assert_eq!(matcher("a{3,2}").err(), Some(RegexError::DisorderedBounds));
    assert_eq!(
        matcher("a{18446744073709551615}").err(),
        Some(RegexError::TooManyStates)
    );
    assert_eq!(matcher("a|").err(), Some(RegexError::AlternationWithoutSucceeding));
    assert_eq!(matcher("+").err(), Some(RegexError::RepetitionWithoutBase));
    assert_eq!(
        matcher("[a").err(),
        Some(RegexError::MissingClosingBracket { position: 2 })
    );
    assert!(!RegexError::DisorderedBounds.message().is_empty());
    assert!(!RegexError::TooManyStates.message().is_empty());
}

#[test]
fn repeated_calls_agree() {
    let first = matcher("(a|b)*c").unwrap();
    let second = matcher("(a|b)*c").unwrap();
    for input in ["", "c", "abc", "abca", "bbbbc"] {
        assert_eq!(first.matches(input), first.matches(input));
        assert_eq!(first.matches(input), second.matches(input));
    }
}

#[test]
fn matching_in_one_call() {
    assert_eq!(is_match("a(b|c)*d", "abcbd"), Ok(true));
    assert_eq!(is_match("a(b|c)*d", "abcb"), Ok(false));
    assert_eq!(is_match("a(b|c)*d", "ad"), Ok(true));
    assert_eq!(is_match("a(", "a"), Ok(true));
    assert_eq!(is_match("a{2,1}", "a"), Err(RegexError::DisorderedBounds));
    assert_eq!(is_match("a|", "a"), Err(RegexError::AlternationWithoutSucceeding));
}

#[test]
fn input_without_the_prefix_is_rejected() {
    let compiled = matcher("abc(d|e)").unwrap();
    let prefix: String = compiled.prefix().iter().collect();
    assert_eq!(prefix, "a");
    for input in ["", "xbcd", "bcd", "Abcd"] {
        assert!(!input.starts_with(&prefix));
        assert_eq!(compiled.matches(input), false);
    }
    assert_eq!(compiled.matches("abcd"), true);
    assert_eq!(compiled.matches("abce"), true);
    assert_eq!(compiled.matches("abcf"), false);
}

#[test]
fn scalars_beyond_one_byte() {
    assert_eq!(is_match("é+ü", "éééü"), Ok(true));
    assert_eq!(is_match("é+ü", "ééé"), Ok(false));
    assert_eq!(is_match("äöü.", "äöüß"), Ok(true));
    assert_eq!(is_match("[α-ω]+", "λογος"), Ok(true));
    assert_eq!(is_match("[α-ω]+", "λoγος"), Ok(false));
}

#[test]
fn long_input() {
    let compiled = matcher("(a|b)*c").unwrap();
    let mut input = "ab".repeat(50_000);
    assert_eq!(compiled.matches(&input), false);
    input.push('c');
    assert_eq!(compiled.matches(&input), true);
    input.push('c');
    assert_eq!(compiled.matches(&input), false);
}
