use vstd::prelude::*;

use crate::chars::{chars_to_string, str_to_chars};
use crate::parser::{
    drain_ops, drain_until_paren, pop_ops, pop_until_paren, spec_precedence, CONCAT_CHAR,
};

verus! {

/// Whether a concatenation marker belongs between adjacent characters in
/// the plain (escape-unaware) syntax.
pub open spec fn spec_needs_marker(prev: char, c: char) -> bool {
    !(prev == '(' || prev == '|') && !(c == ')' || c == '|' || c == '*' || c == '?' || c == '+')
}

/// The first `i` characters of `s` with concatenation markers inserted.
pub open spec fn spec_with_markers(s: Seq<char>, i: int) -> Seq<char>
    decreases i,
{
    if i <= 0 {
        Seq::<char>::empty()
    } else if i == 1 {
        seq![s[0]]
    } else {
        spec_with_markers(s, i - 1) + (if spec_needs_marker(s[i - 2], s[i - 1]) {
            seq![CONCAT_CHAR, s[i - 1]]
        } else {
            seq![s[i - 1]]
        })
    }
}

/// Inserts the explicit concatenation marker between adjacent tokens.
/// This early variant does not know about escapes: it treats every
/// character on its own.
pub fn add_concat_char(expr: &str) -> (r: String)
    ensures
        r@ == spec_with_markers(expr@, expr@.len() as int),
{
    let chars = str_to_chars(expr);
    let mut result: Vec<char> = Vec::new();
    if chars.len() > 0 {
        result.push(chars[0]);
        proof {
            assert(result@ =~= spec_with_markers(chars@, 1));
        }
        let mut prev = chars[0];
        let mut i: usize = 1;
        while i < chars.len()
            invariant
                1 <= i <= chars@.len(),
                prev == chars@[i - 1],
                result@ == spec_with_markers(chars@, i as int),
            decreases chars@.len() - i,
        {
            let c = chars[i];
            if !(prev == '(' || prev == '|') && !(c == ')' || c == '|' || c == '*' || c == '?'
                || c == '+') {
                result.push(CONCAT_CHAR);
            }
            result.push(c);
            proof {
                assert(result@ =~= spec_with_markers(chars@, i + 1));
            }
            prev = c;
            i += 1;
        }
    }
    chars_to_string(&result)
}

/// One pass of the escape-unaware shunting-yard conversion from `i`.
pub open spec fn draft_postfix_steps(s: Seq<char>, i: int, postfix: Seq<char>, ops: Seq<char>) -> (
    Seq<char>,
    Seq<char>,
)
    decreases s.len() - i,
{
    if !(0 <= i < s.len()) {
        (postfix, ops)
    } else if s[i] == '|' || s[i] == CONCAT_CHAR || s[i] == '*' || s[i] == '?' || s[i] == '+' {
        let pp = pop_ops(postfix, ops, spec_precedence(s[i]));
        draft_postfix_steps(s, i + 1, pp.0, pp.1.push(s[i]))
    } else if s[i] == '(' {
        draft_postfix_steps(s, i + 1, postfix, ops.push(s[i]))
    } else if s[i] == ')' {
        let pp = pop_until_paren(postfix, ops);
        draft_postfix_steps(s, i + 1, pp.0, pp.1)
    } else {
        draft_postfix_steps(s, i + 1, postfix.push(s[i]), ops)
    }
}

/// Flushes every remaining operator to the output, open parentheses
/// included.
pub open spec fn flush_all(postfix: Seq<char>, ops: Seq<char>) -> Seq<char>
    decreases ops.len(),
{
    if ops.len() == 0 {
        postfix
    } else {
        flush_all(postfix.push(ops.last()), ops.drop_last())
    }
}

/// What the escape-unaware conversion yields on a whole source string.
pub open spec fn spec_draft_postfix(s: Seq<char>) -> Seq<char> {
    let marked = spec_with_markers(s, s.len() as int);
    let pp = draft_postfix_steps(marked, 0, Seq::<char>::empty(), Seq::<char>::empty());
    flush_all(pp.0, pp.1)
}

/// Flushes every remaining operator to the output, open parentheses
/// included.
fn flush_all_operators(postfix: &mut Vec<char>, ops: &mut Vec<char>)
    ensures
        final(postfix)@ == flush_all(old(postfix)@, old(ops)@),
        final(ops)@.len() == 0,
{
    let ghost p0 = postfix@;
    let ghost o0 = ops@;
    while ops.len() > 0
        invariant
            p0 == old(postfix)@,
            o0 == old(ops)@,
            flush_all(p0, o0) == flush_all(postfix@, ops@),
        decreases ops@.len(),
    {
        let op = match ops.pop() {
            Some(x) => x,
            None => {
                proof {
                    assert(false);
                }
                ' '
            }
        };
        postfix.push(op);
    }
}

/// Converts the expression to postfix notation by the shunting-yard
/// method. This early variant does not know about escapes or quantifier
/// ranges, and keeps unmatched parentheses as operators.
pub fn to_postfix(expr: &str) -> (r: String)
    ensures
        r@ == spec_draft_postfix(expr@),
{
    let with_markers = add_concat_char(expr);
    let chars = str_to_chars(with_markers.as_str());
    let ghost target = draft_postfix_steps(chars@, 0, Seq::<char>::empty(), Seq::<char>::empty());
    let mut postfix: Vec<char> = Vec::new();
    let mut ops: Vec<char> = Vec::new();
    let mut i: usize = 0;
    while i < chars.len()
        invariant
            chars@ == spec_with_markers(expr@, expr@.len() as int),
            target == draft_postfix_steps(chars@, 0, Seq::<char>::empty(), Seq::<char>::empty()),
            i <= chars@.len(),
            draft_postfix_steps(chars@, i as int, postfix@, ops@) == target,
        decreases chars@.len() - i,
    {
        let ghost i0 = i as int;
        let ghost pf0 = postfix@;
        let ghost op0 = ops@;
        let c = chars[i];
        if c == '|' || c == CONCAT_CHAR || c == '*' || c == '?' || c == '+' {
            let cp = op_precedence(c);
            drain_ops(&mut postfix, &mut ops, cp);
            ops.push(c);
        } else if c == '(' {
            ops.push(c);
        } else if c == ')' {
            drain_until_paren(&mut postfix, &mut ops);
        } else {
            postfix.push(c);
            proof {
                assert(postfix@ =~= pf0.push(chars@[i0]));
            }
        }
        i += 1;
        proof {
            assert(draft_postfix_steps(chars@, i0, pf0, op0) == draft_postfix_steps(
                chars@,
                i as int,
                postfix@,
                ops@,
            ));
        }
    }
    proof {
        assert(target == (postfix@, ops@));
    }
    flush_all_operators(&mut postfix, &mut ops);
    chars_to_string(&postfix)
}

/// The precedence of an operator in the infix syntax.
fn op_precedence(c: char) -> (r: u32)
    ensures
        r == spec_precedence(c),
{
    if c == '|' {
        0
    } else if c == CONCAT_CHAR {
        1
    } else {
        2
    }
}

} // verus!
