use vstd::prelude::*;

use crate::ast::{compile_expr_spec, compiles_expr, expr_error};
use crate::automata::Automata;
use crate::error::{Error, ErrorKind};
use crate::grammar::{expr_wf, spec_regex_rule, Expression};
use crate::language::Language;
use crate::semantics::{spec_full_match, spec_global_search, spec_greedy_search, AutoView};

verus! {

/// A compiled regular expression: a wrapper around the automaton the
/// source compiled to.
pub struct RegExp {
    automata: Automata,
}

impl View for RegExp {
    type V = AutoView;

    closed spec fn view(&self) -> AutoView {
        self.automata@
    }
}

impl RegExp {
    /// Whether the expression matches the whole of `expr`.
    pub fn full_match(&self, expr: &str) -> (r: bool)
        ensures
            r == spec_full_match(self@, expr@),
    {
        self.automata.full_match(expr)
    }

    /// The longest substring of `expr` that the expression matches, ties
    /// broken leftmost, or `None` when there is no match at all.
    pub fn greedy_search(&self, expr: &str) -> (r: Option<String>)
        ensures
            match r {
                None => spec_greedy_search(self@, expr@) is None,
                Some(g) => spec_greedy_search(self@, expr@) == Some(g@),
            },
    {
        self.automata.greedy_search(expr)
    }

    /// All non-overlapping matches of the expression in `expr`, leftmost
    /// first.
    pub fn global_search(&self, expr: &str) -> (r: Vec<String>)
        ensures
            r@.len() == spec_global_search(self@, expr@).len(),
            forall|i: int|
                0 <= i < r@.len() ==> #[trigger] r@[i]@ == spec_global_search(self@, expr@)[i],
    {
        self.automata.global_search(expr)
    }
}

/// The regex language, ready to compile expressions.
pub fn init() -> (r: Language) {
    Language::new()
}

impl Language {
    /// Compiles `expr` into a [`RegExp`]. Succeeds exactly when the
    /// grammar assigns `expr` a compiled value, and then the wrapped
    /// automaton is exactly that value. A parse failure is
    /// `InvalidSyntax`; a tree that parses but does not lower reports the
    /// kind of its first fault: `UnsupportedFeature` for a backreference,
    /// `InternalInvariantViolation` for an exactly-zero repetition.
    pub fn compile(&self, expr: &str) -> (r: Result<RegExp, Error>)
        ensures
            r matches Ok(re) ==> spec_regex_rule(expr@) == Some(Some(re@)),
            r matches Err(err) ==> match spec_regex_rule(expr@) {
                None => err.kind == ErrorKind::InvalidSyntax,
                Some(opt) => opt is None && err.kind != ErrorKind::InvalidSyntax && (exists|
                    e: Expression,
                |
                    expr_wf(e) && !compiles_expr(e) && spec_regex_rule(expr@) == Some(
                        if compiles_expr(e) {
                            Some(compile_expr_spec(e))
                        } else {
                            None::<AutoView>
                        },
                    ) && #[trigger] expr_error(e) == Some(err.kind)),
            },
    {
        match self.parse(expr) {
            Ok(a) => Ok(RegExp { automata: a }),
            Err(e) => Err(e),
        }
    }
}

} // verus!
