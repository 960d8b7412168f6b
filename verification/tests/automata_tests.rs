use regex_engine::automata::Automata;

#[test]
fn nfa_concat() {
    let nfa = Automata::from_token('c').concat(Automata::from_token('d'));

    assert!(!nfa.full_match(""));
    assert!(!nfa.full_match("c"));
    assert!(!nfa.full_match("d"));
    assert!(nfa.full_match("cd"));
    assert!(!nfa.full_match("dc"));
    assert!(!nfa.full_match("abcde"));
    assert!(!nfa.full_match("monty python"));

    assert_eq!(nfa.greedy_search(""), None);
    assert_eq!(nfa.greedy_search("c"), None);
    assert_eq!(nfa.greedy_search("d"), None);
    assert_eq!(nfa.greedy_search("cd"), Some(String::from("cd")));
    assert_eq!(nfa.greedy_search("dc"), None);
    assert_eq!(nfa.greedy_search("abcde"), Some(String::from("cd")));
    assert_eq!(nfa.greedy_search("monty python"), None);

    assert_eq!(nfa.global_search(""), Vec::<String>::new());
    assert_eq!(nfa.global_search("c"), Vec::<String>::new());
    assert_eq!(nfa.global_search("d"), Vec::<String>::new());
    assert_eq!(nfa.global_search("cd"), vec!["cd"]);
    assert_eq!(nfa.global_search("dc"), Vec::<String>::new());
    assert_eq!(nfa.global_search("abcde"), vec!["cd"]);
    assert_eq!(nfa.global_search("monty python"), Vec::<String>::new());
}

#[test]
fn nfa_union() {
    let nfa = Automata::from_token('c').or(Automata::from_token('d'));

    assert!(!nfa.full_match(""));
    assert!(nfa.full_match("c"));
    assert!(nfa.full_match("d"));
    assert!(!nfa.full_match("cd"));
    assert!(!nfa.full_match("dc"));
    assert!(!nfa.full_match("abcde"));
    assert!(!nfa.full_match("monty python"));

    assert_eq!(nfa.greedy_search(""), None);
    assert_eq!(nfa.greedy_search("c"), Some(String::from("c")));
    assert_eq!(nfa.greedy_search("d"), Some(String::from("d")));
    assert_eq!(nfa.greedy_search("cd"), Some(String::from("c")));
    assert_eq!(nfa.greedy_search("dc"), Some(String::from("d")));
    assert_eq!(nfa.greedy_search("abcde"), Some(String::from("c")));
    assert_eq!(nfa.greedy_search("monty python"), None);

    assert_eq!(nfa.global_search(""), Vec::<String>::new());
    assert_eq!(nfa.global_search("c"), vec!["c"]);
    assert_eq!(nfa.global_search("d"), vec!["d"]);
    assert_eq!(nfa.global_search("cd"), vec!["c", "d"]);
    assert_eq!(nfa.global_search("dc"), vec!["d", "c"]);
    assert_eq!(nfa.global_search("abcde"), vec!["c", "d"]);
    assert_eq!(nfa.global_search("monty python"), Vec::<String>::new());
}

#[test]
fn nfa_closure() {
    let nfa = Automata::from_token('a').closure();

    assert!(nfa.full_match(""));
    assert!(nfa.full_match("a"));
    assert!(nfa.full_match("aaa"));
    assert!(!nfa.full_match("b"));
    assert!(!nfa.full_match("ab"));
    assert!(!nfa.full_match("ba"));
    assert!(!nfa.full_match("basic"));
    assert!(!nfa.full_match("this is a string"));

    assert_eq!(nfa.greedy_search(""), Some(String::from("")));
    assert_eq!(nfa.greedy_search("a"), Some(String::from("a")));
    assert_eq!(nfa.greedy_search("aaa"), Some(String::from("aaa")));
    assert_eq!(nfa.greedy_search("b"), Some(String::from("")));
    assert_eq!(nfa.greedy_search("ab"), Some(String::from("a")));
    assert_eq!(nfa.greedy_search("ba"), Some(String::from("a")));
    assert_eq!(nfa.greedy_search("basic"), Some(String::from("a")));
    assert_eq!(nfa.greedy_search("this is a string"), Some(String::from("a")));

    assert_eq!(nfa.global_search(""), vec![""]);
    assert_eq!(nfa.global_search("a"), vec!["a"]);
    assert_eq!(nfa.global_search("aaa"), vec!["aaa"]);
    assert_eq!(nfa.global_search("b"), vec!["", ""]);
    assert_eq!(nfa.global_search("ab"), vec!["a", ""]);
    assert_eq!(nfa.global_search("ba"), vec!["", "a"]);
    assert_eq!(nfa.global_search("basic"), vec!["", "a", "", "", ""]);
    assert_eq!(
        nfa.global_search("this is a string"),
        vec!["", "", "", "", "", "", "", "", "a", "", "", "", "", "", "", ""]
    );
}

#[test]
fn nfa_plus() {
    let nfa = Automata::from_token('a').plus();

    assert!(!nfa.full_match(""));
    assert!(nfa.full_match("a"));
    assert!(nfa.full_match("aaa"));
    assert!(!nfa.full_match("b"));
    assert!(!nfa.full_match("ab"));
    assert!(!nfa.full_match("ba"));
    assert!(!nfa.full_match("basic"));
    assert!(!nfa.full_match("this is a string"));

    assert_eq!(nfa.greedy_search(""), None);
    assert_eq!(nfa.greedy_search("a"), Some(String::from("a")));
    assert_eq!(nfa.greedy_search("aaa"), Some(String::from("aaa")));
    assert_eq!(nfa.greedy_search("b"), None);
    assert_eq!(nfa.greedy_search("ab"), Some(String::from("a")));
    assert_eq!(nfa.greedy_search("ba"), Some(String::from("a")));
    assert_eq!(nfa.greedy_search("basic"), Some(String::from("a")));
    assert_eq!(nfa.greedy_search("this is a string"), Some(String::from("a")));

    assert_eq!(nfa.global_search(""), Vec::<String>::new());
    assert_eq!(nfa.global_search("a"), vec!["a"]);
    assert_eq!(nfa.global_search("aaa"), vec!["aaa"]);
    assert_eq!(nfa.global_search("b"), Vec::<String>::new());
    assert_eq!(nfa.global_search("ab"), vec!["a"]);
    assert_eq!(nfa.global_search("ba"), vec!["a"]);
    assert_eq!(nfa.global_search("basic"), vec!["a"]);
    assert_eq!(nfa.global_search("this is a string"), vec!["a"]);
}

#[test]
fn nfa_optional() {
    let nfa = Automata::from_token('a').optional();

    assert!(nfa.full_match(""));
    assert!(nfa.full_match("a"));
    assert!(!nfa.full_match("aaa"));
    assert!(!nfa.full_match("b"));
    assert!(!nfa.full_match("ab"));
    assert!(!nfa.full_match("ba"));
    assert!(!nfa.full_match("basic"));
    assert!(!nfa.full_match("this is a string"));

    assert_eq!(nfa.greedy_search(""), Some(String::from("")));
    assert_eq!(nfa.greedy_search("a"), Some(String::from("a")));
    assert_eq!(nfa.greedy_search("aaa"), Some(String::from("a")));
    assert_eq!(nfa.greedy_search("b"), Some(String::from("")));
    assert_eq!(nfa.greedy_search("ab"), Some(String::from("a")));
    assert_eq!(nfa.greedy_search("ba"), Some(String::from("a")));
    assert_eq!(nfa.greedy_search("basic"), Some(String::from("a")));
    assert_eq!(nfa.greedy_search("this is a string"), Some(String::from("a")));

    assert_eq!(nfa.global_search(""), vec![""]);
    assert_eq!(nfa.global_search("a"), vec!["a"]);
    assert_eq!(nfa.global_search("aaa"), vec!["a", "a", "a"]);
    assert_eq!(nfa.global_search("b"), vec!["", ""]);
    assert_eq!(nfa.global_search("ab"), vec!["a", ""]);
    assert_eq!(nfa.global_search("ba"), vec!["", "a"]);
    assert_eq!(nfa.global_search("basic"), vec!["", "a", "", "", ""]);
    assert_eq!(
        nfa.global_search("this is a string"),
        vec!["", "", "", "", "", "", "", "", "a", "", "", "", "", "", "", ""]
    );
}

#[test]
fn nfa_realistic() {
    // (ab?)*|c
    let nfa = Automata::from_token('a')
        .concat(Automata::from_token('b').optional())
        .closure()
        .or(Automata::from_token('c'));

    assert!(nfa.full_match("abaaaaaa"));
    assert!(nfa.full_match("abab"));
    assert!(!nfa.full_match("abad"));
    assert!(nfa.full_match("c"));
    assert!(nfa.full_match(""));
    assert!(!nfa.full_match("bb"));
    assert!(!nfa.full_match("aaaaaaac"));
    assert!(!nfa.full_match("cc"));

    assert_eq!(nfa.greedy_search("abaaaaaa"), Some(String::from("abaaaaaa")));
    assert_eq!(nfa.greedy_search("abab"), Some(String::from("abab")));
    assert_eq!(nfa.greedy_search("abad"), Some(String::from("aba")));
    assert_eq!(nfa.greedy_search("c"), Some(String::from("c")));
    assert_eq!(nfa.greedy_search(""), Some(String::from("")));
    assert_eq!(nfa.greedy_search("bb"), Some(String::from("")));
    assert_eq!(nfa.greedy_search("aaaaaaac"), Some(String::from("aaaaaaa")));
    assert_eq!(nfa.greedy_search("cc"), Some(String::from("c")));

    assert_eq!(nfa.global_search("abaaaaaa"), vec!["abaaaaaa"]);
    assert_eq!(nfa.global_search("abab"), vec!["abab"]);
    assert_eq!(nfa.global_search("abad"), vec!["aba", ""]);
    assert_eq!(nfa.global_search("c"), vec!["c"]);
    assert_eq!(nfa.global_search(""), vec![""]);
    assert_eq!(nfa.global_search("bb"), vec!["", "", ""]);
    assert_eq!(nfa.global_search("aaaaaaac"), vec!["aaaaaaa", "c"]);
    assert_eq!(nfa.global_search("cc"), vec!["c", "c"]);
}
