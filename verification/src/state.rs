use vstd::prelude::*;

verus! {

/// An anchor assertion: a condition on the position between two input
/// characters rather than on a character itself.
///
/// `NotWordBoundary` is parsed (`\B`) but never enabled during simulation:
/// a state guarded by it can never fire, so a regex using it yields no
/// matches through that branch.
#[derive(Clone, Copy, Debug, PartialEq, Eq, Structural)]
pub enum Anchor {
    Start,
    End,
    WordBoundary,
    NotWordBoundary,
}

/// A single-character predicate, kept as data so that the automaton is a
/// plain value: the dot, the six character classes, and a character range.
#[derive(Clone, Copy, Debug, PartialEq, Eq, Structural)]
pub enum Lambda {
    Any,
    Alphanumeric,
    NotAlphanumeric,
    Digit,
    NotDigit,
    Whitespace,
    NotWhitespace,
    Range(char, char),
}

/// Whether `c` is an ASCII decimal digit.
pub open spec fn spec_is_digit(c: char) -> bool {
    '0' <= c && c <= '9'
}

/// Whether `c` is an ASCII letter or digit (a word character).
pub open spec fn spec_is_word(c: char) -> bool {
    spec_is_digit(c) || ('A' <= c && c <= 'Z') || ('a' <= c && c <= 'z')
}

/// Whether `c` is ASCII whitespace: space, tab, newline, vertical tab,
/// form feed or carriage return.
pub open spec fn spec_is_space(c: char) -> bool {
    c == ' ' || c == '\t' || c == '\n' || c == '\x0b' || c == '\x0c' || c == '\r'
}

/// The set of characters a [`Lambda`] accepts.
pub open spec fn spec_accepts(l: Lambda, c: char) -> bool {
    match l {
        Lambda::Any => true,
        Lambda::Alphanumeric => spec_is_word(c),
        Lambda::NotAlphanumeric => !spec_is_word(c),
        Lambda::Digit => spec_is_digit(c),
        Lambda::NotDigit => !spec_is_digit(c),
        Lambda::Whitespace => spec_is_space(c),
        Lambda::NotWhitespace => !spec_is_space(c),
        Lambda::Range(lo, hi) => lo <= c && c <= hi,
    }
}

impl Lambda {
    /// Runs the predicate on one character.
    pub fn accepts(&self, c: char) -> (r: bool)
        ensures
            r == spec_accepts(*self, c),
    {
        match self {
            Lambda::Any => true,
            Lambda::Alphanumeric => is_word_char(c),
            Lambda::NotAlphanumeric => !is_word_char(c),
            Lambda::Digit => is_digit_char(c),
            Lambda::NotDigit => !is_digit_char(c),
            Lambda::Whitespace => is_space_char(c),
            Lambda::NotWhitespace => !is_space_char(c),
            Lambda::Range(lo, hi) => *lo <= c && c <= *hi,
        }
    }
}

/// Whether `c` is an ASCII decimal digit.
pub fn is_digit_char(c: char) -> (r: bool)
    ensures
        r == spec_is_digit(c),
{
    '0' <= c && c <= '9'
}

/// Whether `c` is a word character: an ASCII letter or digit.
pub fn is_word_char(c: char) -> (r: bool)
    ensures
        r == spec_is_word(c),
{
    is_digit_char(c) || ('A' <= c && c <= 'Z') || ('a' <= c && c <= 'z')
}

/// Whether `c` is ASCII whitespace.
pub fn is_space_char(c: char) -> (r: bool)
    ensures
        r == spec_is_space(c),
{
    c == ' ' || c == '\t' || c == '\n' || c == '\x0b' || c == '\x0c' || c == '\r'
}

/// One state of the automaton. Edges are indices into the owning
/// automaton's state arena.
///
/// - `Trivial`: any number of epsilon edges, consumes nothing.
/// - `Token`: one consuming edge that fires on one exact character.
/// - `Lambda`: one consuming edge guarded by a character predicate.
/// - `Anchor`: one epsilon edge enabled only at positions carrying the tag.
pub enum StateNode {
    Trivial { dests: Vec<usize> },
    Token { token: char, dest: usize },
    Lambda { lambda: Lambda, dest: usize },
    Anchor { anchor: Anchor, dest: usize },
}

impl StateNode {
    /// The consuming successor of this state on input character `token`,
    /// if the state consumes `token`.
    pub fn transition(&self, token: char) -> (r: Option<usize>)
        ensures
            r == match self@ {
                crate::semantics::StateView::Token { token: t, dest } =>
                    if t == token { Some(dest as usize) } else { None::<usize> },
                crate::semantics::StateView::Lambda { lambda, dest } =>
                    if spec_accepts(lambda, token) { Some(dest as usize) } else { None::<usize> },
                _ => None::<usize>,
            },
    {
        match self {
            StateNode::Token { token: t, dest } => {
                if *t == token {
                    Some(*dest)
                } else {
                    None
                }
            }
            StateNode::Lambda { lambda, dest } => {
                if lambda.accepts(token) {
                    Some(*dest)
                } else {
                    None
                }
            }
            _ => None,
        }
    }
}

} // verus!
