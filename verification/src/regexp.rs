use vstd::prelude::*;

use crate::automata::Automata;
use crate::error::Error;
use crate::parser::{self, spec_postfix_parse};
use crate::semantics::{spec_full_match, spec_global_search, spec_greedy_search, AutoView};

verus! {

/// The early command-line facade: a regular expression compiled through
/// the postfix pipeline of [`parser`].
pub struct RegExp {
    automata: Automata,
}

impl View for RegExp {
    type V = AutoView;

    closed spec fn view(&self) -> AutoView {
        self.automata@
    }
}

impl RegExp {
    /// Compiles `expr` through the postfix pipeline. Succeeds exactly when
    /// that pipeline assigns `expr` an automaton, and then wraps exactly
    /// that automaton.
    pub fn new(expr: &str) -> (r: Result<RegExp, Error>)
        ensures
            r matches Ok(re) ==> spec_postfix_parse(expr@) == Some(re@),
            r is Err ==> spec_postfix_parse(expr@) is None,
    {
        match parser::parse(expr) {
            Ok(automata) => Ok(RegExp { automata }),
            Err(e) => Err(e),
        }
    }

    /// Whether the expression matches the whole of `expr`.
    pub fn full_match(&self, expr: &str) -> (r: bool)
        ensures
            r == spec_full_match(self@, expr@),
    {
        self.automata.full_match(expr)
    }

    /// The longest substring of `expr` that the expression matches, ties
    /// broken leftmost. This facade never fails at search time; the
    /// `Result` is kept for its callers.
    pub fn greedy_search(&self, expr: &str) -> (r: Result<Option<String>, Error>)
        ensures
            r matches Ok(g) && (match g {
                None => spec_greedy_search(self@, expr@) is None,
                Some(m) => spec_greedy_search(self@, expr@) == Some(m@),
            }),
    {
        Ok(self.automata.greedy_search(expr))
    }

    /// All non-overlapping matches of the expression in `expr`, leftmost
    /// first.
    pub fn search(&self, expr: &str) -> (r: Vec<String>)
        ensures
            r@.len() == spec_global_search(self@, expr@).len(),
            forall|i: int|
                0 <= i < r@.len() ==> #[trigger] r@[i]@ == spec_global_search(self@, expr@)[i],
    {
        self.automata.global_search(expr)
    }
}

} // verus!
