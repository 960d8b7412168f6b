use vstd::prelude::*;

use crate::ast::{compile_expr_spec, compiles_expr, expr_error};
use crate::automata::Automata;
use crate::chars::str_to_chars;
use crate::error::{Error, ErrorKind};
use crate::grammar::{self, expr_wf, spec_regex_rule, Expression};
use crate::semantics::AutoView;

verus! {

/// The regex language: parsing by the grammar rules and lowering of the
/// resulting syntax tree to an automaton.
pub struct Language;

impl Language {
    /// A handle on the regex language.
    pub fn new() -> (r: Language) {
        Language
    }

    /// The syntax tree of `expr`, if `expr` is in the regex grammar: a
    /// well-formed tree whose compiled value is exactly what the grammar
    /// assigns to `expr`.
    pub fn syntax(&self, expr: &str) -> (r: Option<Expression>)
        ensures
            r matches Some(e) ==> expr_wf(e) && spec_regex_rule(expr@) == Some(
                if compiles_expr(e) {
                    Some(compile_expr_spec(e))
                } else {
                    None::<AutoView>
                },
            ),
            r is None ==> spec_regex_rule(expr@) is None,
    {
        let chars = str_to_chars(expr);
        match grammar::regex(&chars, 0) {
            Some((e, _)) => Some(e),
            None => None,
        }
    }

    /// Parses `expr` and lowers it to an automaton. Succeeds exactly when
    /// the grammar assigns `expr` a compiled value, and then returns
    /// exactly that automaton; fails with `InvalidSyntax` when `expr` is
    /// not in the grammar. When `expr` parses but does not lower, the
    /// error's kind is the kind of the first fault of the parsed tree:
    /// `UnsupportedFeature` for a backreference,
    /// `InternalInvariantViolation` for an exactly-zero repetition.
    pub fn parse(&self, expr: &str) -> (r: Result<Automata, Error>)
        ensures
            r matches Ok(a) ==> spec_regex_rule(expr@) == Some(Some(a@)),
            r matches Err(err) ==> match spec_regex_rule(expr@) {
                None => err.kind == ErrorKind::InvalidSyntax,
                Some(opt) => opt is None && err.kind != ErrorKind::InvalidSyntax && (exists|
                    e: Expression,
                |
                    expr_wf(e) && !compiles_expr(e) && spec_regex_rule(expr@) == Some(
                        if compiles_expr(e) {
                            Some(compile_expr_spec(e))
                        } else {
                            None::<AutoView>
                        },
                    ) && #[trigger] expr_error(e) == Some(err.kind)),
            },
    {
        match self.syntax(expr) {
            Some(e) => {
                let ghost tree = e;
                match e.compile() {
                    Ok(a) => {
                        proof {
                            assert(compiles_expr(tree) && a@ == compile_expr_spec(tree));
                        }
                        Ok(a)
                    }
                    Err(err) => {
                        proof {
                            assert(expr_wf(tree) && !compiles_expr(tree) && expr_error(tree)
                                == Some(err.kind));
                        }
                        Err(err)
                    }
                }
            }
            None => Err(Error::invalid_syntax("the expression is not in the regex grammar")),
        }
    }
}

/// The language of regular expressions.
pub fn regex() -> (r: Language) {
    Language::new()
}

} // verus!
