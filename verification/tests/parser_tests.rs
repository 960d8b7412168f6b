use regex_engine::parser::{expand_quantifiers, read_quantifier};

fn chars_of(s: &str) -> Vec<char> {
    s.chars().collect()
}

#[test]
fn parser_read_quantifier_normal() {
    let testquantifier = chars_of(r"30,5935}a sdf\\ad\(f}");

    assert_eq!(Ok((30, Some(5935))), read_quantifier(&testquantifier, 0).map(|p| p.0));
}

#[test]
fn parser_read_quantifier_no_max() {
    let testquantifier = chars_of(r"123,}a sdf\\ad\(f}");

    assert_eq!(Ok((123, None)), read_quantifier(&testquantifier, 0).map(|p| p.0));
}

#[test]
fn parser_read_quantifier_no_min() {
    let testquantifier = chars_of(r",45}a sdf\\ad\(f}");

    assert_eq!(Ok((0, Some(45))), read_quantifier(&testquantifier, 0).map(|p| p.0));
}

#[test]
fn parser_read_quantifier_specific() {
    let testquantifier = chars_of(r"7890}a sdf\\ad\(f}");

    assert_eq!(Ok((7890, Some(7890))), read_quantifier(&testquantifier, 0).map(|p| p.0));
}

#[test]
fn parser_expand_quantifier_simple() {
    let testexpr = "a{3,6}";
    let expanded_testexpr = expand_quantifiers(testexpr);

    assert!(expanded_testexpr.is_ok());
    assert_eq!(String::from("aaaa?a?a?"), expanded_testexpr.unwrap());
}

#[test]
fn parser_expand_quantifier_realistic() {
    let testexpr = r"@\w+\.\w{2,3}(\.\w{2,})?";
    let expanded_testexpr = expand_quantifiers(testexpr);

    assert!(expanded_testexpr.is_ok());
    assert_eq!(String::from(r"@\w+\.\w\w\w?(\.\w\w+)?"), expanded_testexpr.unwrap());
}

#[test]
fn parser_expand_quantifier_nested_brackets() {
    let testexpr = "((x{2,}y){3,4}z{5}){,3}";
    let expanded_testexpr = expand_quantifiers(testexpr);

    assert!(expanded_testexpr.is_ok());
    assert_eq!(
        String::from(
            "((xx+y)(xx+y)(xx+y)(xx+y)?zzzzz)?((xx+y)(xx+y)(xx+y)(xx+y)?zzzzz)?((xx+y)(xx+y)(xx+y)(xx+y)?zzzzz)?"
        ),
        expanded_testexpr.unwrap()
    );
}

#[test]
fn parser_expand_quantifier_escaped_brackets() {
    let testexpr = r"(\{\(x){2,5}\}";
    let expanded_testexpr = expand_quantifiers(testexpr);

    assert!(expanded_testexpr.is_ok());
    assert_eq!(
        String::from(r"(\{\(x)(\{\(x)(\{\(x)?(\{\(x)?(\{\(x)?\}"),
        expanded_testexpr.unwrap()
    );
}
