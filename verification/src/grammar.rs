use vstd::prelude::*;

pub use crate::state::Anchor;

verus! {

/// `Expression ::= SubExpression ('|' SubExpression)*` — alternatives,
/// joined by `|`. Non-empty.
#[derive(Debug)]
pub struct Expression(pub Vec<SubExpression>);

/// `SubExpression ::= BasicExpression+` — a concatenation. Non-empty.
#[derive(Debug)]
pub struct SubExpression(pub Vec<BasicExpression>);

/// `BasicExpression ::= Anchor | Quantified`
#[derive(Debug)]
pub enum BasicExpression {
    Anchor(Anchor),
    Quantified(Quantified),
}

/// `Quantified ::= Quantifiable Quantifier?`
#[derive(Debug)]
pub struct Quantified {
    pub quantifiable: Quantifiable,
    pub quantifier: Option<Quantifier>,
}

/// `Quantifiable ::= Group | Match | Backreference`
#[derive(Debug)]
pub enum Quantifiable {
    Group(Group),
    Match(Match),
    Backreference(u32),
}

/// `Group ::= '(' Expression ')'` — a parenthesised sub-expression.
#[derive(Debug)]
pub struct Group(pub Box<Expression>);

/// `Match ::= '.' | CharacterClass | CharacterGroup | Char`
#[derive(Debug)]
pub enum Match {
    Any,
    CharacterClass(CharacterClass),
    CharacterGroup(CharacterGroup),
    Char(char),
}

/// `CharacterGroup ::= '[' CharacterGroupItem+ ']'` — non-empty.
#[derive(Debug)]
pub struct CharacterGroup(pub Vec<CharacterGroupItem>);

/// `CharacterGroupItem ::= CharacterClass | CharacterRange | Char`
#[derive(Debug)]
pub enum CharacterGroupItem {
    CharacterClass(CharacterClass),
    CharacterRange(char, char),
    Char(char),
}

/// `CharacterClass ::= '\w' | '\W' | '\d' | '\D' | '\s' | '\S'`
#[derive(Clone, Copy, Debug, PartialEq, Eq, Structural)]
pub enum CharacterClass {
    Alphanumeric,
    NotAlphanumeric,
    Digit,
    NotDigit,
    Whitespace,
    NotWhitespace,
}

/// `Quantifier ::= '*' | '+' | '?' | '{' Int (',' Int?)? '}'`
#[derive(Clone, Copy, Debug, PartialEq, Eq, Structural)]
pub enum Quantifier {
    ZeroOrMore,
    OneOrMore,
    ZeroOrOne,
    Range(u32, Option<u32>),
}

// Structural well-formedness of a syntax tree: what the parser guarantees
// about every tree it produces.

/// Every alternative list is non-empty and each alternative is well-formed.
pub open spec fn expr_wf(e: Expression) -> bool
    decreases e,
{
    &&& e.0@.len() > 0
    &&& (forall|i: int| 0 <= i < e.0@.len() ==> sub_wf(#[trigger] e.0@[i]))
}

/// Every concatenation is non-empty and each piece is well-formed.
pub open spec fn sub_wf(se: SubExpression) -> bool
    decreases se,
{
    &&& se.0@.len() > 0
    &&& (forall|i: int| 0 <= i < se.0@.len() ==> basic_wf(#[trigger] se.0@[i]))
}

pub open spec fn basic_wf(b: BasicExpression) -> bool
    decreases b,
{
    match b {
        BasicExpression::Anchor(a) => true,
        BasicExpression::Quantified(q) => quantified_wf(q),
    }
}

/// A bounded repetition `{l, u}` has `l <= u`.
pub open spec fn quantified_wf(q: Quantified) -> bool
    decreases q,
{
    &&& quantifiable_wf(q.quantifiable)
    &&& (match q.quantifier {
        Some(Quantifier::Range(l, Some(u))) => l <= u,
        _ => true,
    })
}

/// A backreference names one of the groups `1` to `9`.
pub open spec fn quantifiable_wf(qf: Quantifiable) -> bool
    decreases qf,
{
    match qf {
        Quantifiable::Group(g) => expr_wf(*g.0),
        Quantifiable::Match(m) => match_wf(m),
        Quantifiable::Backreference(n) => 1 <= n <= 9,
    }
}

/// A character group is non-empty.
pub open spec fn match_wf(m: Match) -> bool {
    match m {
        Match::CharacterGroup(cg) => cg.0@.len() > 0,
        _ => true,
    }
}


// ---------------------------------------------------------------------------
// The grammar rules, as a hand-written recursive-descent parser over the
// primitive parsers of `alphabet`. Each rule consumes at least one
// character on success and yields a well-formed tree.
// ---------------------------------------------------------------------------

use crate::alphabet::{any, character, end, escaped, number};
use crate::ast::{
    class_lambda, compile_basic_spec, compile_basics_spec, compile_expr_spec,
    compile_match_spec, compile_quantifiable_spec, compile_quantified_spec, compile_sub_spec,
    compile_subs_spec, compiles_basic, compiles_expr, compiles_match, compiles_quantifiable,
    compiles_quantified, compiles_sub, or_fold_items, range_auto,
};
use crate::semantics::{
    closure_spec, concat_spec, from_anchor_spec, from_lambda_spec, from_token_spec,
    optional_spec, or_spec, plus_spec, AutoView,
};
use crate::state::Lambda;

/// `Regex ::= Expression EOF` — the whole input must be consumed.
pub fn regex(input: &Vec<char>, pos: usize) -> (r: Option<(Expression, usize)>)
    requires
        pos == 0,
        pos <= input@.len(),
    ensures
        r matches Some(p) ==> p.1 == input@.len() && expr_wf(p.0) && spec_regex_rule(input@)
            == Some(
            if compiles_expr(p.0) {
                Some(compile_expr_spec(p.0))
            } else {
                None::<AutoView>
            },
        ),
        r is None ==> spec_regex_rule(input@) is None,
{
    match expression(input, pos) {
        Some((e, p)) => {
            if end(input, p) {
                Some((e, p))
            } else {
                None
            }
        }
        None => None,
    }
}

/// `Expression ::= SubExpression ('|' SubExpression)*`
pub fn expression(input: &Vec<char>, pos: usize) -> (r: Option<(Expression, usize)>)
    requires
        pos <= input@.len(),
    ensures
        r matches Some(p) ==> spec_expression_rule(input@, pos as int) == Some(
            (
                if compiles_expr(p.0) {
                    Some(compile_expr_spec(p.0))
                } else {
                    None::<AutoView>
                },
                p.1 as int,
            ),
        ),
        r is None ==> spec_expression_rule(input@, pos as int) is None,
        r matches Some(p) ==> pos < p.1 <= input@.len() && expr_wf(p.0),
    decreases input@.len() - pos, 5int,
{
    let (first, first_pos) = match subexpression(input, pos) {
        Some(x) => x,
        None => {
            return None;
        }
    };
    let ghost favo: Option<AutoView> = if compiles_sub(first) {
        Some(compile_sub_spec(first))
    } else {
        None
    };
    let ghost target = spec_expr_more(input@, first_pos as int, favo);
    let mut subs: Vec<SubExpression> = Vec::new();
    subs.push(first);
    proof {
        assert(subs@ =~= seq![first]);
        assert(compile_subs_spec(seq![first]) == compile_sub_spec(first));
        if compiles_sub(first) {
            assert forall|i: int| 0 <= i < subs@.len() implies compiles_sub(
                #[trigger] subs@[i],
            ) by {}
        } else {
            assert(!compiles_sub(subs@[0]));
        }
        assert(expr_acc(subs@) == favo);
    }
    let mut cur = first_pos;
    let mut go = true;
    while go
        invariant
            pos < cur <= input@.len(),
            subs@.len() > 0,
            forall|i: int| 0 <= i < subs@.len() ==> sub_wf(#[trigger] subs@[i]),
            target == spec_expr_more(input@, cur as int, expr_acc(subs@)),
            !go ==> spec_expr_more(input@, cur as int, expr_acc(subs@)) == (
                expr_acc(subs@),
                cur as int,
            ),
        decreases input@.len() - cur, if go { 1int } else { 0int },
    {
        let mut advanced = false;
        match character(input, cur, '|') {
            Some(p2) => match subexpression(input, p2) {
                Some((se, p3)) => {
                    let ghost cur0 = cur as int;
                    let ghost acc0 = expr_acc(subs@);
                    let ghost savo: Option<AutoView> = if compiles_sub(se) {
                        Some(compile_sub_spec(se))
                    } else {
                        None
                    };
                    let ghost old_subs = subs@;
                    subs.push(se);
                    cur = p3;
                    advanced = true;
                    proof {
                        assert(subs@ =~= old_subs.push(se));
                        lemma_expr_acc_push(old_subs, se);
                        assert(expr_acc(subs@) == combine_or(acc0, savo));
                        assert(spec_expr_more(input@, cur0, acc0) == spec_expr_more(
                            input@,
                            p3 as int,
                            combine_or(acc0, savo),
                        ));
                    }
                }
                None => {
                    proof {
                        assert(spec_expr_more(input@, cur as int, expr_acc(subs@)) == (
                            expr_acc(subs@),
                            cur as int,
                        ));
                    }
                }
            },
            None => {
                proof {
                    assert(spec_expr_more(input@, cur as int, expr_acc(subs@)) == (
                        expr_acc(subs@),
                        cur as int,
                    ));
                }
            }
        }
        if !advanced {
            go = false;
        }
    }
    proof {
        assert(target == (expr_acc(subs@), cur as int));
        assert(spec_expression_rule(input@, pos as int) == Some(target));
        let tree = Expression(subs);
        assert(compile_expr_spec(tree) == compile_subs_spec(subs@));
        assert(compiles_expr(tree) == (expr_acc(subs@) is Some));
    }
    Some((Expression(subs), cur))
}

/// `SubExpression ::= BasicExpression+`
pub fn subexpression(input: &Vec<char>, pos: usize) -> (r: Option<(SubExpression, usize)>)
    requires
        pos <= input@.len(),
    ensures
        r matches Some(p) ==> spec_subexpression_rule(input@, pos as int) == Some(
            (
                if compiles_sub(p.0) {
                    Some(compile_sub_spec(p.0))
                } else {
                    None::<AutoView>
                },
                p.1 as int,
            ),
        ),
        r is None ==> spec_subexpression_rule(input@, pos as int) is None,
        r matches Some(p) ==> pos < p.1 <= input@.len() && sub_wf(p.0),
    decreases input@.len() - pos, 4int,
{
    let (first, first_pos) = match basic_expression(input, pos) {
        Some(x) => x,
        None => {
            return None;
        }
    };
    let ghost favo: Option<AutoView> = if compiles_basic(first) {
        Some(compile_basic_spec(first))
    } else {
        None
    };
    let ghost target = spec_sub_more(input@, first_pos as int, favo);
    let mut items: Vec<BasicExpression> = Vec::new();
    items.push(first);
    proof {
        assert(items@ =~= seq![first]);
        assert(compile_basics_spec(seq![first]) == compile_basic_spec(first));
        if compiles_basic(first) {
            assert forall|i: int| 0 <= i < items@.len() implies compiles_basic(
                #[trigger] items@[i],
            ) by {}
        } else {
            assert(!compiles_basic(items@[0]));
        }
        assert(sub_acc(items@) == favo);
    }
    let mut cur = first_pos;
    let mut go = true;
    while go
        invariant
            pos < cur <= input@.len(),
            items@.len() > 0,
            forall|i: int| 0 <= i < items@.len() ==> basic_wf(#[trigger] items@[i]),
            target == spec_sub_more(input@, cur as int, sub_acc(items@)),
            !go ==> spec_basic_rule(input@, cur as int) is None,
        decreases input@.len() - cur, if go { 1int } else { 0int },
    {
        match basic_expression(input, cur) {
            Some((b, p)) => {
                let ghost cur0 = cur as int;
                let ghost acc0 = sub_acc(items@);
                let ghost bavo: Option<AutoView> = if compiles_basic(b) {
                    Some(compile_basic_spec(b))
                } else {
                    None
                };
                let ghost old_items = items@;
                items.push(b);
                cur = p;
                proof {
                    assert(items@ =~= old_items.push(b));
                    lemma_sub_acc_push(old_items, b);
                    assert(sub_acc(items@) == combine_concat(acc0, bavo));
                    assert(spec_sub_more(input@, cur0, acc0) == spec_sub_more(
                        input@,
                        p as int,
                        combine_concat(acc0, bavo),
                    ));
                }
            }
            None => {
                go = false;
            }
        }
    }
    proof {
        assert(spec_sub_more(input@, cur as int, sub_acc(items@)) == (
            sub_acc(items@),
            cur as int,
        ));
        assert(target == (sub_acc(items@), cur as int));
        assert(spec_subexpression_rule(input@, pos as int) == Some(target));
        let tree = SubExpression(items);
        assert(compile_sub_spec(tree) == compile_basics_spec(items@));
        assert(compiles_sub(tree) == (sub_acc(items@) is Some));
    }
    Some((SubExpression(items), cur))
}

/// `BasicExpression ::= Anchor | Quantified` — anchors are recognised
/// first, so `^` and `$` act as anchors wherever they appear.
pub fn basic_expression(input: &Vec<char>, pos: usize) -> (r: Option<(BasicExpression, usize)>)
    requires
        pos <= input@.len(),
    ensures
        r matches Some(p) ==> spec_basic_rule(input@, pos as int) == Some(
            (
                if compiles_basic(p.0) {
                    Some(compile_basic_spec(p.0))
                } else {
                    None::<AutoView>
                },
                p.1 as int,
            ),
        ),
        r is None ==> spec_basic_rule(input@, pos as int) is None,
        r matches Some(p) ==> pos < p.1 <= input@.len() && basic_wf(p.0),
    decreases input@.len() - pos, 3int,
{
    match anchor(input, pos) {
        Some((a, p)) => {
            return Some((BasicExpression::Anchor(a), p));
        }
        None => {}
    }
    match quantified(input, pos) {
        Some((q, p)) => Some((BasicExpression::Quantified(q), p)),
        None => None,
    }
}

/// The character class named by an escape, if any.
pub open spec fn class_of(c: char) -> Option<CharacterClass> {
    match c {
        'w' => Some(CharacterClass::Alphanumeric),
        'W' => Some(CharacterClass::NotAlphanumeric),
        'd' => Some(CharacterClass::Digit),
        'D' => Some(CharacterClass::NotDigit),
        's' => Some(CharacterClass::Whitespace),
        'S' => Some(CharacterClass::NotWhitespace),
        _ => None,
    }
}

/// The control character named by an escape, if any.
pub open spec fn control_of(c: char) -> Option<char> {
    match c {
        't' => Some('\t'),
        'n' => Some('\n'),
        'r' => Some('\r'),
        'v' => Some('\x0b'),
        'f' => Some('\x0c'),
        '0' => Some('\0'),
        _ => None,
    }
}

/// Whether `input` holds an escape pair starting at `pos`.
pub open spec fn escape_at(input: Seq<char>, pos: int) -> bool {
    pos + 1 < input.len() && input[pos] == '\\'
}

/// What the anchor rule yields.
pub open spec fn spec_anchor(input: Seq<char>, pos: int) -> Option<(Anchor, int)> {
    if 0 <= pos < input.len() && input[pos] == '^' {
        Some((Anchor::Start, pos + 1))
    } else if escape_at(input, pos) && input[pos + 1] == 'b' {
        Some((Anchor::WordBoundary, pos + 2))
    } else if escape_at(input, pos) && input[pos + 1] == 'B' {
        Some((Anchor::NotWordBoundary, pos + 2))
    } else if 0 <= pos < input.len() && input[pos] == '$' {
        Some((Anchor::End, pos + 1))
    } else {
        None
    }
}

/// `Anchor ::= '^' | '\b' | '\B' | '$'`
pub fn anchor(input: &Vec<char>, pos: usize) -> (r: Option<(Anchor, usize)>)
    requires
        pos <= input@.len(),
    ensures
        input@.len() <= usize::MAX,
        r == match spec_anchor(input@, pos as int) {
            Some(p) => Some((p.0, p.1 as usize)),
            None => None::<(Anchor, usize)>,
        },
        r matches Some(p) ==> pos < p.1 <= input@.len(),
{
    match character(input, pos, '^') {
        Some(p) => {
            return Some((Anchor::Start, p));
        }
        None => {}
    }
    match escaped(input, pos) {
        Some((c, p)) => {
            if c == 'b' {
                return Some((Anchor::WordBoundary, p));
            }
            if c == 'B' {
                return Some((Anchor::NotWordBoundary, p));
            }
        }
        None => {}
    }
    match character(input, pos, '$') {
        Some(p) => Some((Anchor::End, p)),
        None => None,
    }
}

/// `Quantified ::= Quantifiable Quantifier?`
pub fn quantified(input: &Vec<char>, pos: usize) -> (r: Option<(Quantified, usize)>)
    requires
        pos <= input@.len(),
    ensures
        r matches Some(p) ==> spec_quantified_rule(input@, pos as int) == Some(
            (
                if compiles_quantified(p.0) {
                    Some(compile_quantified_spec(p.0))
                } else {
                    None::<AutoView>
                },
                p.1 as int,
            ),
        ),
        r is None ==> spec_quantified_rule(input@, pos as int) is None,
        r matches Some(p) ==> pos < p.1 <= input@.len() && quantified_wf(p.0),
    decreases input@.len() - pos, 2int,
{
    let (qf, p1) = match quantifiable(input, pos) {
        Some(x) => x,
        None => {
            return None;
        }
    };
    let ghost qavo: Option<AutoView> = if compiles_quantifiable(qf) {
        Some(compile_quantifiable_spec(qf))
    } else {
        None
    };
    match quantifier(input, p1) {
        Some((q, p2)) => {
            let ghost tree = Quantified { quantifiable: qf, quantifier: Some(q) };
            proof {
                assert(compiles_quantified(tree) == (compiles_quantifiable(qf) && q
                    != Quantifier::Range(0, Some(0u32))));
                if compiles_quantified(tree) {
                    assert(apply_quantifier(qavo, q) == Some(compile_quantified_spec(tree)));
                } else {
                    assert(apply_quantifier(qavo, q) is None);
                }
            }
            proof {
                lemma_spec_quantifier_bounds(input@, p1 as int);
                assert(spec_quantified_rule(input@, pos as int) == Some(
                    (apply_quantifier(qavo, q), p2 as int),
                ));
            }
            Some((Quantified { quantifiable: qf, quantifier: Some(q) }, p2))
        }
        None => {
            let ghost tree = Quantified { quantifiable: qf, quantifier: None };
            proof {
                assert(compiles_quantified(tree) == compiles_quantifiable(qf));
                assert(compile_quantified_spec(tree) == compile_quantifiable_spec(qf));
                assert(spec_quantified_rule(input@, pos as int) == Some((qavo, p1 as int)));
            }
            Some((Quantified { quantifiable: qf, quantifier: None }, p1))
        }
    }
}

/// `Quantifiable ::= Group | Match | Backreference`
pub fn quantifiable(input: &Vec<char>, pos: usize) -> (r: Option<(Quantifiable, usize)>)
    requires
        pos <= input@.len(),
    ensures
        r matches Some(p) ==> spec_quantifiable_rule(input@, pos as int) == Some(
            (
                if compiles_quantifiable(p.0) {
                    Some(compile_quantifiable_spec(p.0))
                } else {
                    None::<AutoView>
                },
                p.1 as int,
            ),
        ),
        r is None ==> spec_quantifiable_rule(input@, pos as int) is None,
        r matches Some(p) ==> pos < p.1 <= input@.len() && quantifiable_wf(p.0),
    decreases input@.len() - pos, 1int,
{
    match group(input, pos) {
        Some((g, p)) => {
            return Some((Quantifiable::Group(g), p));
        }
        None => {}
    }
    match match_rule(input, pos) {
        Some((m, p)) => {
            return Some((Quantifiable::Match(m), p));
        }
        None => {}
    }
    match backreference(input, pos) {
        Some((n, p)) => Some((Quantifiable::Backreference(n), p)),
        None => None,
    }
}

/// `Group ::= '(' Expression ')'`
pub fn group(input: &Vec<char>, pos: usize) -> (r: Option<(Group, usize)>)
    requires
        pos <= input@.len(),
    ensures
        r matches Some(p) ==> spec_group_rule(input@, pos as int) == Some(
            (
                if compiles_expr(*p.0.0) {
                    Some(compile_expr_spec(*p.0.0))
                } else {
                    None::<AutoView>
                },
                p.1 as int,
            ),
        ),
        r is None ==> spec_group_rule(input@, pos as int) is None,
        r matches Some(p) ==> pos < p.1 <= input@.len() && expr_wf(*p.0.0),
    decreases input@.len() - pos, 0int,
{
    let p1 = match character(input, pos, '(') {
        Some(p) => p,
        None => {
            return None;
        }
    };
    let (e, p2) = match expression(input, p1) {
        Some(x) => x,
        None => {
            return None;
        }
    };
    let p3 = match character(input, p2, ')') {
        Some(p) => p,
        None => {
            return None;
        }
    };
    Some((Group(Box::new(e)), p3))
}

/// Whether the character-group rule succeeds at `pos`.
pub open spec fn group_rule_ok(input: Seq<char>, pos: int) -> bool {
    let inner = spec_group_items(input, pos + 1);
    &&& pos < input.len()
    &&& input[pos] == '['
    &&& inner.0.len() > 0
    &&& inner.1 < input.len()
    &&& input[inner.1] == ']'
}

/// The automaton of the match construct starting at `pos`, and the
/// position after it. Every match construct that parses also compiles.
pub open spec fn spec_match_auto(input: Seq<char>, pos: int) -> Option<(AutoView, int)> {
    if 0 <= pos < input.len() && input[pos] == '.' {
        Some((from_lambda_spec(Lambda::Any), pos + 1))
    } else {
        match spec_class(input, pos) {
            Some(cp) => Some((from_lambda_spec(class_lambda(cp.0)), cp.1)),
            None => if group_rule_ok(input, pos) {
                let inner = spec_group_items(input, pos + 1);
                Some((or_fold_items(inner.0), inner.1 + 1))
            } else {
                match spec_char_rule(input, pos) {
                    Some(cp) => Some((from_token_spec(cp.0), cp.1)),
                    None => None,
                }
            },
        }
    }
}

/// `Match ::= '.' | CharacterClass | CharacterGroup | Char` — first
/// success wins.
pub fn match_rule(input: &Vec<char>, pos: usize) -> (r: Option<(Match, usize)>)
    requires
        pos <= input@.len(),
    ensures
        r matches Some(p) ==> spec_match_auto(input@, pos as int) == Some(
            (compile_match_spec(p.0), p.1 as int),
        ),
        r is None ==> spec_match_auto(input@, pos as int) is None,
        r matches Some(p) ==> pos < p.1 <= input@.len() && match_wf(p.0),
{
    match character(input, pos, '.') {
        Some(p) => {
            return Some((Match::Any, p));
        }
        None => {}
    }
    match character_class(input, pos) {
        Some((cc, p)) => {
            return Some((Match::CharacterClass(cc), p));
        }
        None => {}
    }
    match character_group(input, pos) {
        Some((cg, p)) => {
            return Some((Match::CharacterGroup(cg), p));
        }
        None => {}
    }
    match char_rule(input, pos) {
        Some((c, p)) => Some((Match::Char(c), p)),
        None => None,
    }
}

/// The longest run of character-group items from `pos`: the items and the
/// position where the run stops.
pub open spec fn spec_group_items(input: Seq<char>, pos: int) -> (Seq<CharacterGroupItem>, int)
    decreases input.len() - pos,
{
    match spec_group_item(input, pos) {
        None => (Seq::<CharacterGroupItem>::empty(), pos),
        Some(ip) => if pos < ip.1 <= input.len() {
            let rest = spec_group_items(input, ip.1);
            (seq![ip.0] + rest.0, rest.1)
        } else {
            (seq![ip.0], ip.1)
        },
    }
}

/// A parsed item always stands inside the input and makes progress.
pub proof fn lemma_group_item_bounds(input: Seq<char>, pos: int)
    requires
        0 <= pos <= input.len(),
    ensures
        spec_group_item(input, pos) matches Some(ip) ==> pos < ip.1 <= input.len(),
{
}

/// `CharacterGroup ::= '[' CharacterGroupItem+ ']'`
pub fn character_group(input: &Vec<char>, pos: usize) -> (r: Option<(CharacterGroup, usize)>)
    requires
        pos <= input@.len(),
    ensures
        ({
            let inner = spec_group_items(input@, pos + 1);
            if pos < input@.len() && input@[pos as int] == '[' && inner.0.len() > 0 && inner.1
                < input@.len() && input@[inner.1] == ']' {
                r matches Some(p) && p.0.0@ == inner.0 && p.1 == inner.1 + 1
            } else {
                r is None
            }
        }),
        r matches Some(p) ==> pos < p.1 <= input@.len() && p.0.0@.len() > 0,
{
    let ghost whole = spec_group_items(input@, pos + 1);
    let p1 = match character(input, pos, '[') {
        Some(p) => p,
        None => {
            return None;
        }
    };
    let (first, first_pos) = match character_group_item(input, p1) {
        Some(x) => x,
        None => {
            proof {
                assert(whole.0.len() == 0);
            }
            return None;
        }
    };
    let mut items: Vec<CharacterGroupItem> = Vec::new();
    items.push(first);
    let mut cur = first_pos;
    proof {
        lemma_group_item_bounds(input@, p1 as int);
        assert(whole.0 =~= items@ + spec_group_items(input@, cur as int).0);
        assert(whole.1 == spec_group_items(input@, cur as int).1);
    }
    let mut go = true;
    while go
        invariant
            pos < cur <= input@.len(),
            items@.len() > 0,
            whole == spec_group_items(input@, pos + 1),
            whole.0 == items@ + spec_group_items(input@, cur as int).0,
            whole.1 == spec_group_items(input@, cur as int).1,
            !go ==> spec_group_item(input@, cur as int) is None,
        decreases input@.len() - cur, if go { 1int } else { 0int },
    {
        match character_group_item(input, cur) {
            Some((it, p)) => {
                let ghost cur0 = cur as int;
                items.push(it);
                cur = p;
                proof {
                    lemma_group_item_bounds(input@, cur0);
                    assert(spec_group_items(input@, cur0).0 =~= seq![it] + spec_group_items(
                        input@,
                        cur as int,
                    ).0);
                    assert(whole.0 =~= items@ + spec_group_items(input@, cur as int).0);
                }
            }
            None => {
                go = false;
            }
        }
    }
    proof {
        assert(spec_group_items(input@, cur as int).0 =~= Seq::<CharacterGroupItem>::empty());
        assert(whole.0 =~= items@);
        assert(whole.1 == cur);
    }
    match character(input, cur, ']') {
        Some(p) => Some((CharacterGroup(items), p)),
        None => None,
    }
}

/// What the character-group-item rule yields: a class, then a range, then
/// a single group character, first success winning.
pub open spec fn spec_group_item(input: Seq<char>, pos: int) -> Option<(CharacterGroupItem, int)> {
    match spec_class(input, pos) {
        Some(cp) => Some((CharacterGroupItem::CharacterClass(cp.0), cp.1)),
        None => match spec_character_range(input, pos) {
            Some(rp) => Some((CharacterGroupItem::CharacterRange(rp.0.0, rp.0.1), rp.1)),
            None => match spec_group_char(input, pos) {
                Some(cp) => Some((CharacterGroupItem::Char(cp.0), cp.1)),
                None => None,
            },
        },
    }
}

/// `CharacterGroupItem ::= CharacterClass | CharacterRange | Char`
pub fn character_group_item(input: &Vec<char>, pos: usize) -> (r: Option<(
    CharacterGroupItem,
    usize,
)>)
    requires
        pos <= input@.len(),
    ensures
        input@.len() <= usize::MAX,
        r == match spec_group_item(input@, pos as int) {
            Some(p) => Some((p.0, p.1 as usize)),
            None => None::<(CharacterGroupItem, usize)>,
        },
        r matches Some(p) ==> pos < p.1 <= input@.len(),
{
    match character_class(input, pos) {
        Some((cc, p)) => {
            return Some((CharacterGroupItem::CharacterClass(cc), p));
        }
        None => {}
    }
    match character_range(input, pos) {
        Some(((lo, hi), p)) => {
            return Some((CharacterGroupItem::CharacterRange(lo, hi), p));
        }
        None => {}
    }
    match character_group_char(input, pos) {
        Some((c, p)) => Some((CharacterGroupItem::Char(c), p)),
        None => None,
    }
}

/// What the character-range rule yields: two group characters joined by a
/// dash.
pub open spec fn spec_character_range(input: Seq<char>, pos: int) -> Option<((char, char), int)> {
    match spec_group_char(input, pos) {
        None => None,
        Some(lo) => if lo.1 < input.len() && input[lo.1] == '-' {
            match spec_group_char(input, lo.1 + 1) {
                None => None,
                Some(hi) => Some(((lo.0, hi.0), hi.1)),
            }
        } else {
            None
        },
    }
}

/// `CharacterRange ::= Char '-' Char`
pub fn character_range(input: &Vec<char>, pos: usize) -> (r: Option<((char, char), usize)>)
    requires
        pos <= input@.len(),
    ensures
        input@.len() <= usize::MAX,
        r == match spec_character_range(input@, pos as int) {
            Some(p) => Some((p.0, p.1 as usize)),
            None => None::<((char, char), usize)>,
        },
        r matches Some(p) ==> pos < p.1 <= input@.len(),
{
    let (lo, p1) = match character_group_char(input, pos) {
        Some(x) => x,
        None => {
            return None;
        }
    };
    let p2 = match character(input, p1, '-') {
        Some(p) => p,
        None => {
            return None;
        }
    };
    let (hi, p3) = match character_group_char(input, p2) {
        Some(x) => x,
        None => {
            return None;
        }
    };
    Some(((lo, hi), p3))
}

/// The characters that must be escaped inside a character group.
pub open spec fn spec_group_special(c: char) -> bool {
    c == '^' || c == '\\' || c == '-' || c == ']'
}

fn char_group_special(c: char) -> (r: bool)
    ensures
        r == spec_group_special(c),
{
    c == '^' || c == '\\' || c == '-' || c == ']'
}

/// A literal character inside a character group: anything but the group
/// metacharacters, an escaped group metacharacter, or a control escape.
/// What the group-char rule yields: a literal group character, an escaped
/// group metacharacter, or a control escape.
pub open spec fn spec_group_char(input: Seq<char>, pos: int) -> Option<(char, int)> {
    if 0 <= pos < input.len() && !spec_group_special(input[pos]) {
        Some((input[pos], pos + 1))
    } else if escape_at(input, pos) && spec_group_special(input[pos + 1]) {
        Some((input[pos + 1], pos + 2))
    } else if escape_at(input, pos) {
        match control_of(input[pos + 1]) {
            Some(c) => Some((c, pos + 2)),
            None => None,
        }
    } else {
        None
    }
}

pub fn character_group_char(input: &Vec<char>, pos: usize) -> (r: Option<(char, usize)>)
    requires
        pos <= input@.len(),
    ensures
        input@.len() <= usize::MAX,
        r == match spec_group_char(input@, pos as int) {
            Some(p) => Some((p.0, p.1 as usize)),
            None => None::<(char, usize)>,
        },
        r matches Some(p) ==> pos < p.1 <= input@.len(),
{
    match any(input, pos) {
        Some((c, p)) => {
            if !char_group_special(c) {
                return Some((c, p));
            }
        }
        None => {}
    }
    match escaped(input, pos) {
        Some((c, p)) => {
            if char_group_special(c) {
                return Some((c, p));
            }
        }
        None => {}
    }
    control_char(input, pos)
}

/// `CharacterClass ::= '\w' | '\W' | '\d' | '\D' | '\s' | '\S'`
/// What the character-class rule yields.
pub open spec fn spec_class(input: Seq<char>, pos: int) -> Option<(CharacterClass, int)> {
    if escape_at(input, pos) {
        match class_of(input[pos + 1]) {
            Some(cc) => Some((cc, pos + 2)),
            None => None,
        }
    } else {
        None
    }
}

pub fn character_class(input: &Vec<char>, pos: usize) -> (r: Option<(CharacterClass, usize)>)
    requires
        pos <= input@.len(),
    ensures
        input@.len() <= usize::MAX,
        r == match spec_class(input@, pos as int) {
            Some(p) => Some((p.0, p.1 as usize)),
            None => None::<(CharacterClass, usize)>,
        },
        r matches Some(p) ==> pos < p.1 <= input@.len(),
{
    match escaped(input, pos) {
        Some((c, p)) => match c {
            'w' => Some((CharacterClass::Alphanumeric, p)),
            'W' => Some((CharacterClass::NotAlphanumeric, p)),
            'd' => Some((CharacterClass::Digit, p)),
            'D' => Some((CharacterClass::NotDigit, p)),
            's' => Some((CharacterClass::Whitespace, p)),
            'S' => Some((CharacterClass::NotWhitespace, p)),
            _ => None,
        },
        None => None,
    }
}

/// The metacharacters that must be escaped to stand for themselves at the
/// top level of the grammar. The dash is special only inside character
/// groups; a bare top-level `-` is a literal.
pub open spec fn spec_special_char(c: char) -> bool {
    c == '^' || c == '$' || c == '|' || c == '*' || c == '?' || c == '+' || c == '.'
        || c == '\\' || c == '(' || c == ')' || c == '{' || c == '}' || c == '['
        || c == ']'
}

fn special_char(c: char) -> (r: bool)
    ensures
        r == spec_special_char(c),
{
    c == '^' || c == '$' || c == '|' || c == '*' || c == '?' || c == '+' || c == '.'
        || c == '\\' || c == '(' || c == ')' || c == '{' || c == '}' || c == '['
        || c == ']'
}

/// A literal character: anything but a metacharacter, an escaped
/// metacharacter, or a control escape.
/// What the literal-character rule yields: an unescaped ordinary
/// character, an escaped metacharacter, or a control escape.
pub open spec fn spec_char_rule(input: Seq<char>, pos: int) -> Option<(char, int)> {
    if 0 <= pos < input.len() && !spec_special_char(input[pos]) {
        Some((input[pos], pos + 1))
    } else if escape_at(input, pos) && spec_special_char(input[pos + 1]) {
        Some((input[pos + 1], pos + 2))
    } else if escape_at(input, pos) {
        match control_of(input[pos + 1]) {
            Some(c) => Some((c, pos + 2)),
            None => None,
        }
    } else {
        None
    }
}

pub fn char_rule(input: &Vec<char>, pos: usize) -> (r: Option<(char, usize)>)
    requires
        pos <= input@.len(),
    ensures
        input@.len() <= usize::MAX,
        r == match spec_char_rule(input@, pos as int) {
            Some(p) => Some((p.0, p.1 as usize)),
            None => None::<(char, usize)>,
        },
        r matches Some(p) ==> pos < p.1 <= input@.len(),
{
    match any(input, pos) {
        Some((c, p)) => {
            if !special_char(c) {
                return Some((c, p));
            }
        }
        None => {}
    }
    match escaped(input, pos) {
        Some((c, p)) => {
            if special_char(c) {
                return Some((c, p));
            }
        }
        None => {}
    }
    control_char(input, pos)
}

/// The control escapes `\t \n \r \v \f \0`.
pub fn control_char(input: &Vec<char>, pos: usize) -> (r: Option<(char, usize)>)
    requires
        pos <= input@.len(),
    ensures
        input@.len() <= usize::MAX,
        r == if escape_at(input@, pos as int) {
            match control_of(input@[pos + 1]) {
                Some(c) => Some((c, (pos + 2) as usize)),
                None => None::<(char, usize)>,
            }
        } else {
            None::<(char, usize)>
        },
{
    match escaped(input, pos) {
        Some((c, p)) => match c {
            't' => Some(('\t', p)),
            'n' => Some(('\n', p)),
            'r' => Some(('\r', p)),
            'v' => Some(('\x0b', p)),
            'f' => Some(('\x0c', p)),
            '0' => Some(('\0', p)),
            _ => None,
        },
        None => None,
    }
}

/// What the backreference rule yields.
pub open spec fn spec_backreference(input: Seq<char>, pos: int) -> Option<(u32, int)> {
    if escape_at(input, pos) && '1' <= input[pos + 1] && input[pos + 1] <= '9' {
        Some(((crate::alphabet::digit_val(input[pos + 1])) as u32, pos + 2))
    } else {
        None
    }
}

/// `Backreference ::= '\' [1-9]`
pub fn backreference(input: &Vec<char>, pos: usize) -> (r: Option<(u32, usize)>)
    requires
        pos <= input@.len(),
    ensures
        input@.len() <= usize::MAX,
        r == match spec_backreference(input@, pos as int) {
            Some(p) => Some((p.0, p.1 as usize)),
            None => None::<(u32, usize)>,
        },
        r matches Some(p) ==> 1 <= p.0 <= 9 && pos < p.1 <= input@.len(),
{
    match escaped(input, pos) {
        Some((c, p)) => {
            if '1' <= c && c <= '9' {
                Some((c as u32 - 48, p))
            } else {
                None
            }
        }
        None => None,
    }
}

/// What the range-quantifier rule yields on `input` at `pos`: the bounds
/// and the position after the closing brace. `{l}` means `{l,l}`, `{l,}`
/// has no upper bound, and `{l,u}` requires `l <= u`.
pub open spec fn spec_range_quantifier(input: Seq<char>, pos: int) -> Option<(
    (u32, Option<u32>),
    int,
)> {
    if !(pos < input.len() && input[pos] == '{') {
        None
    } else {
        let p1 = pos + 1;
        let e = crate::alphabet::digits_end(input, p1);
        if e == p1 || crate::alphabet::digits_val(input, p1, e) > u32::MAX {
            None
        } else {
            let l = crate::alphabet::digits_val(input, p1, e) as u32;
            if e < input.len() && input[e] == ',' {
                let p3 = e + 1;
                let e2 = crate::alphabet::digits_end(input, p3);
                if e2 == p3 {
                    if p3 < input.len() && input[p3] == '}' {
                        Some(((l, None), p3 + 1))
                    } else {
                        None
                    }
                } else if crate::alphabet::digits_val(input, p3, e2) > u32::MAX {
                    None
                } else {
                    let u = crate::alphabet::digits_val(input, p3, e2) as u32;
                    if e2 < input.len() && input[e2] == '}' && l <= u {
                        Some(((l, Some(u)), e2 + 1))
                    } else {
                        None
                    }
                }
            } else if e < input.len() && input[e] == '}' {
                Some(((l, Some(l)), e + 1))
            } else {
                None
            }
        }
    }
}

/// What the quantifier rule yields.
pub open spec fn spec_quantifier(input: Seq<char>, pos: int) -> Option<(Quantifier, int)> {
    if 0 <= pos < input.len() && input[pos] == '*' {
        Some((Quantifier::ZeroOrMore, pos + 1))
    } else if 0 <= pos < input.len() && input[pos] == '+' {
        Some((Quantifier::OneOrMore, pos + 1))
    } else if 0 <= pos < input.len() && input[pos] == '?' {
        Some((Quantifier::ZeroOrOne, pos + 1))
    } else {
        match spec_range_quantifier(input, pos) {
            Some(q) => Some((Quantifier::Range(q.0.0, q.0.1), q.1)),
            None => None,
        }
    }
}

/// A parsed quantifier ends inside the input and past its start.
pub proof fn lemma_spec_quantifier_bounds(input: Seq<char>, pos: int)
    requires
        0 <= pos <= input.len(),
    ensures
        spec_quantifier(input, pos) matches Some(sp) ==> pos < sp.1 <= input.len(),
{
    if pos < input.len() && input[pos] == '{' {
        crate::alphabet::lemma_digits_end_props(input, pos + 1);
        let e = crate::alphabet::digits_end(input, pos + 1);
        if e < input.len() && input[e] == ',' {
            crate::alphabet::lemma_digits_end_props(input, e + 1);
        }
    }
}

/// `Quantifier ::= '*' | '+' | '?' | RangeQuantifier`
pub fn quantifier(input: &Vec<char>, pos: usize) -> (r: Option<(Quantifier, usize)>)
    requires
        pos <= input@.len(),
    ensures
        input@.len() <= usize::MAX,
        r == match spec_quantifier(input@, pos as int) {
            Some(p) => Some((p.0, p.1 as usize)),
            None => None::<(Quantifier, usize)>,
        },
        r matches Some(p) ==> pos < p.1 <= input@.len() && (match p.0 {
            Quantifier::Range(l, Some(u)) => l <= u,
            _ => true,
        }),
{
    match character(input, pos, '*') {
        Some(p) => {
            return Some((Quantifier::ZeroOrMore, p));
        }
        None => {}
    }
    match character(input, pos, '+') {
        Some(p) => {
            return Some((Quantifier::OneOrMore, p));
        }
        None => {}
    }
    match character(input, pos, '?') {
        Some(p) => {
            return Some((Quantifier::ZeroOrOne, p));
        }
        None => {}
    }
    match range_quantifier(input, pos) {
        Some(((l, u), p)) => Some((Quantifier::Range(l, u), p)),
        None => None,
    }
}

/// `RangeQuantifier ::= '{' Int (',' Int?)? '}'` — `{l}` means `{l,l}`,
/// `{l,}` has no upper bound, and `{l,u}` requires `l <= u`.
pub fn range_quantifier(input: &Vec<char>, pos: usize) -> (r: Option<((u32, Option<u32>), usize)>)
    requires
        pos <= input@.len(),
    ensures
        input@.len() <= usize::MAX,
        r == match spec_range_quantifier(input@, pos as int) {
            Some(q) => Some((q.0, q.1 as usize)),
            None => None::<((u32, Option<u32>), usize)>,
        },
        r matches Some(p) ==> pos < p.1 <= input@.len() && (match p.0.1 {
            Some(u) => p.0.0 <= u,
            None => true,
        }),
{
    let p1 = match character(input, pos, '{') {
        Some(p) => p,
        None => {
            return None;
        }
    };
    let (l, p2) = match number(input, p1) {
        Some(x) => x,
        None => {
            return None;
        }
    };
    match character(input, p2, ',') {
        None => {
            match character(input, p2, '}') {
                Some(p3) => Some(((l, Some(l)), p3)),
                None => None,
            }
        }
        Some(p3) => {
            match number(input, p3) {
                Some((u, p4)) => {
                    match character(input, p4, '}') {
                        Some(p5) => {
                            if l <= u {
                                Some(((l, Some(u)), p5))
                            } else {
                                None
                            }
                        }
                        None => None,
                    }
                }
                None => {
                    match character(input, p3, '}') {
                        Some(p5) => Some(((l, None), p5)),
                        None => None,
                    }
                }
            }
        }
    }
}


// ---------------------------------------------------------------------------
// What the whole pipeline yields on a source string: for each grammar rule,
// the position after it and the automaton its parse tree compiles to
// (`None` inside the option when the tree parses but does not compile,
// because of a backreference or an exactly-zero repetition).
// ---------------------------------------------------------------------------

/// Concatenation of compiled values; a piece that does not compile spoils
/// the whole.
pub open spec fn combine_concat(a: Option<AutoView>, b: Option<AutoView>) -> Option<AutoView> {
    match (a, b) {
        (Some(x), Some(y)) => Some(concat_spec(x, y)),
        _ => None,
    }
}

/// Alternation of compiled values; a branch that does not compile spoils
/// the whole.
pub open spec fn combine_or(a: Option<AutoView>, b: Option<AutoView>) -> Option<AutoView> {
    match (a, b) {
        (Some(x), Some(y)) => Some(or_spec(x, y)),
        _ => None,
    }
}

/// Applies a quantifier to a compiled value.
pub open spec fn apply_quantifier(avo: Option<AutoView>, q: Quantifier) -> Option<AutoView> {
    match avo {
        None => None,
        Some(av) => match q {
            Quantifier::ZeroOrMore => Some(closure_spec(av)),
            Quantifier::OneOrMore => Some(plus_spec(av)),
            Quantifier::ZeroOrOne => Some(optional_spec(av)),
            Quantifier::Range(l, u) => if l == 0 && u == Some(0u32) {
                None
            } else {
                Some(range_auto(av, l, u))
            },
        },
    }
}

pub open spec fn spec_group_rule(input: Seq<char>, pos: int) -> Option<(Option<AutoView>, int)>
    decreases input.len() - pos, 0int,
{
    if 0 <= pos < input.len() && input[pos] == '(' {
        match spec_expression_rule(input, pos + 1) {
            None => None,
            Some(ep) => if ep.1 < input.len() && input[ep.1] == ')' {
                Some((ep.0, ep.1 + 1))
            } else {
                None
            },
        }
    } else {
        None
    }
}

pub open spec fn spec_quantifiable_rule(input: Seq<char>, pos: int) -> Option<(
    Option<AutoView>,
    int,
)>
    decreases input.len() - pos, 1int,
{
    match spec_group_rule(input, pos) {
        Some(x) => Some(x),
        None => match spec_match_auto(input, pos) {
            Some(mp) => Some((Some(mp.0), mp.1)),
            None => match spec_backreference(input, pos) {
                Some(bp) => Some((None, bp.1)),
                None => None,
            },
        },
    }
}

pub open spec fn spec_quantified_rule(input: Seq<char>, pos: int) -> Option<(
    Option<AutoView>,
    int,
)>
    decreases input.len() - pos, 2int,
{
    match spec_quantifiable_rule(input, pos) {
        None => None,
        Some(qp) => match spec_quantifier(input, qp.1) {
            Some(quant) => Some((apply_quantifier(qp.0, quant.0), quant.1)),
            None => Some(qp),
        },
    }
}

pub open spec fn spec_basic_rule(input: Seq<char>, pos: int) -> Option<(Option<AutoView>, int)>
    decreases input.len() - pos, 3int,
{
    match spec_anchor(input, pos) {
        Some(ap) => Some((Some(from_anchor_spec(ap.0)), ap.1)),
        None => spec_quantified_rule(input, pos),
    }
}

pub open spec fn spec_sub_more(input: Seq<char>, pos: int, acc: Option<AutoView>) -> (
    Option<AutoView>,
    int,
)
    decreases input.len() - pos, 4int,
{
    match spec_basic_rule(input, pos) {
        None => (acc, pos),
        Some((avo, p1)) => if pos < p1 <= input.len() {
            spec_sub_more(input, p1, combine_concat(acc, avo))
        } else {
            (combine_concat(acc, avo), p1)
        },
    }
}

pub open spec fn spec_subexpression_rule(input: Seq<char>, pos: int) -> Option<(
    Option<AutoView>,
    int,
)>
    decreases input.len() - pos, 5int,
{
    match spec_basic_rule(input, pos) {
        None => None,
        Some((avo, p1)) => if pos < p1 <= input.len() {
            Some(spec_sub_more(input, p1, avo))
        } else {
            Some((avo, p1))
        },
    }
}

pub open spec fn spec_expr_more(input: Seq<char>, pos: int, acc: Option<AutoView>) -> (
    Option<AutoView>,
    int,
)
    decreases input.len() - pos, 6int,
{
    if 0 <= pos < input.len() && input[pos] == '|' {
        match spec_subexpression_rule(input, pos + 1) {
            None => (acc, pos),
            Some((avo, p2)) => if pos < p2 <= input.len() {
                spec_expr_more(input, p2, combine_or(acc, avo))
            } else {
                (combine_or(acc, avo), p2)
            },
        }
    } else {
        (acc, pos)
    }
}

pub open spec fn spec_expression_rule(input: Seq<char>, pos: int) -> Option<(
    Option<AutoView>,
    int,
)>
    decreases input.len() - pos, 7int,
{
    match spec_subexpression_rule(input, pos) {
        None => None,
        Some((avo, p1)) => if pos < p1 <= input.len() {
            Some(spec_expr_more(input, p1, avo))
        } else {
            Some((avo, p1))
        },
    }
}

/// What compiling a whole source string yields: `None` when the string is
/// not in the grammar, `Some(None)` when it parses but does not compile,
/// and `Some(Some(av))` when it compiles to the automaton `av`.
pub open spec fn spec_regex_rule(input: Seq<char>) -> Option<Option<AutoView>> {
    match spec_expression_rule(input, 0) {
        None => None,
        Some((avo, p)) => if p == input.len() {
            Some(avo)
        } else {
            None
        },
    }
}

/// The compiled value of a concatenation list.
pub open spec fn sub_acc(items: Seq<BasicExpression>) -> Option<AutoView> {
    if forall|i: int| 0 <= i < items.len() ==> compiles_basic(#[trigger] items[i]) {
        Some(compile_basics_spec(items))
    } else {
        None
    }
}

/// The compiled value of an alternation list.
pub open spec fn expr_acc(subs: Seq<SubExpression>) -> Option<AutoView> {
    if forall|i: int| 0 <= i < subs.len() ==> compiles_sub(#[trigger] subs[i]) {
        Some(compile_subs_spec(subs))
    } else {
        None
    }
}

/// Appending one piece to a concatenation list combines its compiled
/// value on the right.
pub proof fn lemma_sub_acc_push(items: Seq<BasicExpression>, b: BasicExpression)
    requires
        items.len() >= 1,
    ensures
        sub_acc(items.push(b)) == combine_concat(
            sub_acc(items),
            if compiles_basic(b) {
                Some(compile_basic_spec(b))
            } else {
                None
            },
        ),
{
    let p = items.push(b);
    assert(p.drop_last() =~= items);
    assert(p.last() == b);
    if forall|i: int| 0 <= i < items.len() ==> compiles_basic(#[trigger] items[i]) {
        if compiles_basic(b) {
            assert forall|i: int| 0 <= i < p.len() implies compiles_basic(#[trigger] p[i]) by {
                if i < items.len() {
                    assert(p[i] == items[i]);
                } else {
                    assert(p[i] == b);
                }
            }
            assert(compile_basics_spec(p) == concat_spec(
                compile_basics_spec(items),
                compile_basic_spec(b),
            ));
        } else {
            assert(p[p.len() - 1] == b);
            assert(!compiles_basic(p[p.len() - 1]));
        }
    } else {
        let w = choose|i: int| 0 <= i < items.len() && !compiles_basic(#[trigger] items[i]);
        assert(p[w] == items[w]);
        assert(!compiles_basic(p[w]));
    }
}

/// Appending one alternative to an alternation list combines its compiled
/// value on the right.
pub proof fn lemma_expr_acc_push(subs: Seq<SubExpression>, se: SubExpression)
    requires
        subs.len() >= 1,
    ensures
        expr_acc(subs.push(se)) == combine_or(
            expr_acc(subs),
            if compiles_sub(se) {
                Some(compile_sub_spec(se))
            } else {
                None
            },
        ),
{
    let p = subs.push(se);
    assert(p.drop_last() =~= subs);
    assert(p.last() == se);
    if forall|i: int| 0 <= i < subs.len() ==> compiles_sub(#[trigger] subs[i]) {
        if compiles_sub(se) {
            assert forall|i: int| 0 <= i < p.len() implies compiles_sub(#[trigger] p[i]) by {
                if i < subs.len() {
                    assert(p[i] == subs[i]);
                } else {
                    assert(p[i] == se);
                }
            }
            assert(compile_subs_spec(p) == or_spec(compile_subs_spec(subs), compile_sub_spec(se)));
        } else {
            assert(p[p.len() - 1] == se);
            assert(!compiles_sub(p[p.len() - 1]));
        }
    } else {
        let w = choose|i: int| 0 <= i < subs.len() && !compiles_sub(#[trigger] subs[i]);
        assert(p[w] == subs[w]);
        assert(!compiles_sub(p[w]));
    }
}

} // verus!
