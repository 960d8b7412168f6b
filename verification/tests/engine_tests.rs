use regex_engine::alphabet;
use regex_engine::error::ErrorKind;
use regex_engine::parser;
use regex_engine::regex::init;
use regex_engine::state::{is_digit_char, is_space_char, is_word_char};
use regex_engine::utils;

// Anchor monotonicity on concrete inputs: whenever the anchored expression
// matches the whole input, the unanchored one does too.
#[test]
fn anchored_match_implies_plain_match() {
    let regex = init();
    let cases = [("^abc", "abc", "abc"), ("abc$", "abc", "abc"), ("^a*$", "aaa", "a*")];
    for (anchored, input, plain) in cases {
        let with_anchor = regex.compile(anchored).unwrap();
        let without_anchor = regex.compile(plain).unwrap();
        assert!(with_anchor.full_match(input));
        assert!(without_anchor.full_match(input));
    }

    // An anchored match found anywhere is also found without the anchor.
    let anchored = regex.compile("^ab").unwrap();
    let plain = regex.compile("ab").unwrap();
    for input in ["ab", "abab", "abx"] {
        assert!(anchored.greedy_search(input).is_some());
        assert!(plain.greedy_search(input).is_some());
    }
}

// Alternation commutativity on concrete inputs: `a|b` and `b|a` yield the
// same match sets.
#[test]
fn alternation_is_commutative_as_sets() {
    let regex = init();
    let left = regex.compile("ab|ba").unwrap();
    let right = regex.compile("ba|ab").unwrap();
    for input in ["abba", "ab", "ba", "aabb", "xyz", "ababab"] {
        let mut from_left = left.global_search(input);
        let mut from_right = right.global_search(input);
        from_left.sort();
        from_right.sort();
        assert_eq!(from_left, from_right);
    }
    let left = regex.compile("a|b").unwrap();
    let right = regex.compile("b|a").unwrap();
    for input in ["abba", "ab", "x"] {
        let mut from_left = left.global_search(input);
        let mut from_right = right.global_search(input);
        from_left.sort();
        from_right.sort();
        assert_eq!(from_left, from_right);
    }
}

// Quantifier identities on concrete inputs, including the `a{1,}` / `a+`
// pair whose automata differ structurally.
#[test]
fn quantifier_identities_on_inputs() {
    let regex = init();
    let pairs = [("a{1}", "a"), ("a{0,}", "a*"), ("a{1,}", "a+"), ("a{0,1}", "a?"), ("(ab){2}", "abab")];
    for (lhs, rhs) in pairs {
        let left = regex.compile(lhs).unwrap();
        let right = regex.compile(rhs).unwrap();
        for input in ["", "a", "aa", "aaa", "ab", "abab", "ba", "aabaa"] {
            assert_eq!(left.full_match(input), right.full_match(input));
            assert_eq!(left.greedy_search(input), right.greedy_search(input));
            assert_eq!(left.global_search(input), right.global_search(input));
        }
    }
}

// Group transparency on concrete inputs.
#[test]
fn group_is_transparent_on_inputs() {
    let regex = init();
    let grouped = regex.compile("(ab*c)").unwrap();
    let plain = regex.compile("ab*c").unwrap();
    for input in ["ac", "abc", "abbbc", "xacx", "ab"] {
        assert_eq!(grouped.full_match(input), plain.full_match(input));
        assert_eq!(grouped.greedy_search(input), plain.greedy_search(input));
        assert_eq!(grouped.global_search(input), plain.global_search(input));
    }
}

// Compiling twice and searching repeatedly always reproduces the same
// results.
#[test]
fn compilation_and_search_are_reproducible() {
    let regex = init();
    let first = regex.compile("(a|b)*c").unwrap();
    let second = regex.compile("(a|b)*c").unwrap();
    for input in ["abc", "c", "ababc", "x"] {
        assert_eq!(first.full_match(input), second.full_match(input));
        assert_eq!(first.greedy_search(input), first.greedy_search(input));
        assert_eq!(first.greedy_search(input), second.greedy_search(input));
        assert_eq!(first.global_search(input), second.global_search(input));
    }
}

// Each error kind arises from the inputs that provoke it.
#[test]
fn compile_error_kinds() {
    let regex = init();

    // Not in the grammar: unterminated group, trailing garbage, empty
    // input, a reversed repetition range, an unknown escape, an empty
    // character group.
    for bad in ["(ab", "ab)", "", "a{3,2}", r"\q", "[]", "a**", "(?:a)"] {
        let err = regex.compile(bad).err().unwrap();
        assert_eq!(err.kind, ErrorKind::InvalidSyntax);
    }

    // Backreferences parse but do not compile.
    let err = regex.compile(r"(a)\1").err().unwrap();
    assert_eq!(err.kind, ErrorKind::UnsupportedFeature);

    // An exactly-zero repetition folds an empty list.
    let err = regex.compile("a{0,0}").err().unwrap();
    assert_eq!(err.kind, ErrorKind::InternalInvariantViolation);
}

// Word-boundary anchors.
#[test]
fn word_boundary_anchor() {
    let regex = init();
    let word = regex.compile(r"\bab").unwrap();
    assert!(word.full_match("ab"));
    assert_eq!(word.greedy_search("x ab"), Some(String::from("ab")));
    assert_eq!(word.greedy_search("xab"), None);

    // `\B` parses, and a state guarded by it never fires.
    let never = regex.compile(r"a\Bb").unwrap();
    assert_eq!(never.greedy_search("ab"), None);
}

// Character groups with ranges and classes.
#[test]
fn character_group_ranges() {
    let regex = init();
    let ident = regex.compile(r"[a-z0-9_]+").unwrap();
    assert!(ident.full_match("snake_case_9"));
    assert!(!ident.full_match("Snake"));
    assert_eq!(ident.greedy_search("A bc9_z B"), Some(String::from("bc9_z")));

    let digits = regex.compile(r"[\d]+").unwrap();
    assert!(digits.full_match("0123"));
    assert!(!digits.full_match("12a"));

    // A reversed range admits no character at all.
    let empty = regex.compile("[z-a]").unwrap();
    assert_eq!(empty.greedy_search("m"), None);
}

// Bounded repetition compiles to mandatory and optional copies.
#[test]
fn bounded_repetition() {
    let regex = init();
    let two_to_three = regex.compile("a{2,3}").unwrap();
    assert!(!two_to_three.full_match("a"));
    assert!(two_to_three.full_match("aa"));
    assert!(two_to_three.full_match("aaa"));
    assert!(!two_to_three.full_match("aaaa"));
    assert_eq!(two_to_three.greedy_search("aaaaa"), Some(String::from("aaa")));

    let at_least_two = regex.compile("a{2,}").unwrap();
    assert!(!at_least_two.full_match("a"));
    assert!(at_least_two.full_match("aaaa"));

    let exactly_two = regex.compile("a{2}").unwrap();
    assert!(exactly_two.full_match("aa"));
    assert!(!exactly_two.full_match("aaa"));
}

// The character predicates implement the documented ASCII sets.
#[test]
fn character_predicates() {
    assert!(is_digit_char('0') && is_digit_char('9') && !is_digit_char('a'));
    assert!(is_word_char('a') && is_word_char('Z') && is_word_char('5') && !is_word_char('_'));
    assert!(is_space_char(' ') && is_space_char('\t') && is_space_char('\x0b'));
    assert!(!is_space_char('a'));
}

// The primitive parsers.
#[test]
fn alphabet_primitives() {
    let input: Vec<char> = "ab12".chars().collect();
    assert_eq!(alphabet::any(&input, 0), Some(('a', 1)));
    assert_eq!(alphabet::any(&input, 4), None);
    assert_eq!(alphabet::character(&input, 0, 'a'), Some(1));
    assert_eq!(alphabet::character(&input, 0, 'b'), None);
    assert_eq!(alphabet::string(&input, 0, "ab1"), Some(3));
    assert_eq!(alphabet::string(&input, 1, "b12"), Some(4));
    assert_eq!(alphabet::string(&input, 0, "ba"), None);
    assert_eq!(alphabet::digit(&input, 2), Some((1, 3)));
    assert_eq!(alphabet::digit(&input, 0), None);
    assert_eq!(alphabet::number(&input, 2), Some((12, 4)));
    assert_eq!(alphabet::number(&input, 0), None);
    assert!(alphabet::end(&input, 4));
    assert!(!alphabet::end(&input, 3));

    let escaped_input: Vec<char> = r"\d".chars().collect();
    assert_eq!(alphabet::escaped(&escaped_input, 0), Some(('d', 2)));
    assert_eq!(alphabet::escaped(&escaped_input, 1), None);

    // A number too large for its type is rejected rather than wrapped.
    let big: Vec<char> = "99999999999999999999".chars().collect();
    assert_eq!(alphabet::number(&big, 0), None);
}

// The early, escape-unaware postfix helpers.
#[test]
fn utils_drafts() {
    let marked = utils::add_concat_char("ab|c");
    let marker = '\x1b';
    let expected: String = vec!['a', marker, 'b', '|', 'c'].into_iter().collect();
    assert_eq!(marked, expected);

    let postfix = utils::to_postfix("a|b");
    let expected: String = vec!['a', 'b', '|'].into_iter().collect();
    assert_eq!(postfix, expected);

    let postfix = utils::to_postfix("ab");
    let expected: String = vec!['a', 'b', marker].into_iter().collect();
    assert_eq!(postfix, expected);
}

// The escape-aware concatenation marking of the postfix pipeline.
#[test]
fn parser_add_concat_char() {
    let marker = '\x1b';
    let marked = parser::add_concat_char(r"a\db").unwrap();
    let expected: String = vec!['a', marker, '\\', 'd', marker, 'b'].into_iter().collect();
    assert_eq!(marked, expected);

    let illegal: String = vec!['a', marker].into_iter().collect();
    assert!(parser::add_concat_char(illegal.as_str()).is_err());
}

// `to_postfix` keeps escapes attached and reports unmatched parentheses.
#[test]
fn parser_to_postfix() {
    let marker = '\x1b';
    let postfix = parser::to_postfix("ab").unwrap();
    let expected: String = vec!['a', 'b', marker].into_iter().collect();
    assert_eq!(postfix, expected);

    assert!(parser::to_postfix("(ab").is_err());
}

// A dash is a literal at the top level and a metacharacter only inside
// character groups.
#[test]
fn dash_is_literal_at_top_level() {
    let regex = init();
    let dashed = regex.compile("a-b").unwrap();
    assert!(dashed.full_match("a-b"));
    assert!(!dashed.full_match("ab"));
    assert_eq!(dashed.greedy_search("xa-by"), Some(String::from("a-b")));

    // An escaped dash is not a recognised escape at the top level.
    let err = regex.compile(r"a\-b").err().unwrap();
    assert_eq!(err.kind, ErrorKind::InvalidSyntax);

    // Inside a group the dash still builds ranges and must be escaped to
    // stand for itself.
    let range = regex.compile("[a-c]").unwrap();
    assert!(range.full_match("b"));
    let literal = regex.compile(r"[\-]").unwrap();
    assert!(literal.full_match("-"));

    // The postfix pipeline agrees: a bare dash is a literal, an escaped
    // dash is an unknown escape.
    let legacy = regex_engine::regexp::RegExp::new("a-b").unwrap();
    assert!(legacy.full_match("a-b"));
    assert!(regex_engine::regexp::RegExp::new(r"a\-b").is_err());
}

// The dot never matches across the match interval rules.
#[test]
fn dot_matches_any_character() {
    let regex = init();
    let dot = regex.compile(".").unwrap();
    assert!(dot.full_match("x"));
    assert!(dot.full_match(" "));
    assert!(!dot.full_match("xy"));
    assert!(!dot.full_match(""));
    assert_eq!(dot.global_search("ab"), vec!["a", "b"]);
}
