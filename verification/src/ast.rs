use vstd::prelude::*;

use crate::automata::Automata;
use crate::error::{Error, ErrorKind};
use crate::grammar::{
    BasicExpression, CharacterClass, CharacterGroup, CharacterGroupItem, Expression, Group, Match,
    Quantifiable, Quantified, Quantifier, SubExpression,
};
use crate::semantics::{
    closure_spec, concat_spec, from_anchor_spec, from_lambda_spec, from_token_spec, optional_spec,
    or_spec, plus_spec, AutoView,
};
use crate::state::{Anchor, Lambda};

verus! {

broadcast use vstd::std_specs::vec::group_vec_axioms;

// ---------------------------------------------------------------------------
// Which trees compile: no backreference, no `{0,0}` repetition, no empty
// fold. On any other tree the compiler fails with a discriminated error.
// ---------------------------------------------------------------------------

pub open spec fn compiles_expr(e: Expression) -> bool
    decreases e,
{
    &&& e.0@.len() > 0
    &&& (forall|i: int| 0 <= i < e.0@.len() ==> compiles_sub(#[trigger] e.0@[i]))
}

pub open spec fn compiles_sub(se: SubExpression) -> bool
    decreases se,
{
    &&& se.0@.len() > 0
    &&& (forall|i: int| 0 <= i < se.0@.len() ==> compiles_basic(#[trigger] se.0@[i]))
}

pub open spec fn compiles_basic(b: BasicExpression) -> bool
    decreases b,
{
    match b {
        BasicExpression::Anchor(a) => true,
        BasicExpression::Quantified(q) => compiles_quantified(q),
    }
}

pub open spec fn compiles_quantified(q: Quantified) -> bool
    decreases q,
{
    &&& compiles_quantifiable(q.quantifiable)
    &&& q.quantifier != Some(Quantifier::Range(0, Some(0)))
}

pub open spec fn compiles_quantifiable(qf: Quantifiable) -> bool
    decreases qf,
{
    match qf {
        Quantifiable::Group(g) => compiles_expr(*g.0),
        Quantifiable::Match(m) => compiles_match(m),
        Quantifiable::Backreference(n) => false,
    }
}

pub open spec fn compiles_match(m: Match) -> bool {
    match m {
        Match::CharacterGroup(cg) => cg.0@.len() > 0,
        _ => true,
    }
}

// ---------------------------------------------------------------------------
// The exact automaton a compiling tree lowers to.
// ---------------------------------------------------------------------------

/// The predicate a character class lowers to.
pub open spec fn class_lambda(cc: CharacterClass) -> Lambda {
    match cc {
        CharacterClass::Alphanumeric => Lambda::Alphanumeric,
        CharacterClass::NotAlphanumeric => Lambda::NotAlphanumeric,
        CharacterClass::Digit => Lambda::Digit,
        CharacterClass::NotDigit => Lambda::NotDigit,
        CharacterClass::Whitespace => Lambda::Whitespace,
        CharacterClass::NotWhitespace => Lambda::NotWhitespace,
    }
}

/// The automaton of one character-group item.
pub open spec fn item_auto(it: CharacterGroupItem) -> AutoView {
    match it {
        CharacterGroupItem::CharacterClass(cc) => from_lambda_spec(class_lambda(cc)),
        CharacterGroupItem::CharacterRange(lo, hi) => from_lambda_spec(Lambda::Range(lo, hi)),
        CharacterGroupItem::Char(c) => from_token_spec(c),
    }
}

/// Left fold of alternation over the items of a character group.
pub open spec fn or_fold_items(items: Seq<CharacterGroupItem>) -> AutoView
    decreases items.len(),
{
    if items.len() <= 1 {
        item_auto(items[0])
    } else {
        or_spec(or_fold_items(items.drop_last()), item_auto(items.last()))
    }
}

/// The automaton of a single match construct.
pub open spec fn compile_match_spec(m: Match) -> AutoView {
    match m {
        Match::Any => from_lambda_spec(Lambda::Any),
        Match::CharacterClass(cc) => from_lambda_spec(class_lambda(cc)),
        Match::CharacterGroup(cg) => or_fold_items(cg.0@),
        Match::Char(c) => from_token_spec(c),
    }
}

/// `base` concatenated with `k` further copies of `item`, left to right.
pub open spec fn concat_more(base: AutoView, item: AutoView, k: nat) -> AutoView
    decreases k,
{
    if k == 0 {
        base
    } else {
        concat_spec(concat_more(base, item, (k - 1) as nat), item)
    }
}

/// The automaton of a bounded or half-open repetition of `av`: the
/// mandatory copies, then optional copies up to the bound, or a closure
/// when there is no bound. (`{0,0}` does not compile and is excluded by
/// `compiles_quantified`; its value here is immaterial.)
pub open spec fn range_auto(av: AutoView, l: u32, u: Option<u32>) -> AutoView {
    match u {
        None => if l == 0 {
            closure_spec(av)
        } else {
            concat_spec(concat_more(av, av, (l - 1) as nat), closure_spec(av))
        },
        Some(u) => if l == 0 && u == 0 {
            av
        } else if l == 0 {
            concat_more(optional_spec(av), optional_spec(av), (u - 1) as nat)
        } else if u <= l {
            concat_more(av, av, (l - 1) as nat)
        } else {
            concat_more(concat_more(av, av, (l - 1) as nat), optional_spec(av), (u - l) as nat)
        },
    }
}

pub open spec fn compile_expr_spec(e: Expression) -> AutoView
    decreases e,
{
    compile_subs_spec(e.0@)
}

pub open spec fn compile_subs_spec(ss: Seq<SubExpression>) -> AutoView
    decreases ss,
{
    if ss.len() == 0 {
        from_token_spec(' ')
    } else if ss.len() == 1 {
        compile_sub_spec(ss[0])
    } else {
        or_spec(compile_subs_spec(ss.drop_last()), compile_sub_spec(ss.last()))
    }
}

pub open spec fn compile_sub_spec(se: SubExpression) -> AutoView
    decreases se,
{
    compile_basics_spec(se.0@)
}

pub open spec fn compile_basics_spec(bs: Seq<BasicExpression>) -> AutoView
    decreases bs,
{
    if bs.len() == 0 {
        from_token_spec(' ')
    } else if bs.len() == 1 {
        compile_basic_spec(bs[0])
    } else {
        concat_spec(compile_basics_spec(bs.drop_last()), compile_basic_spec(bs.last()))
    }
}

pub open spec fn compile_basic_spec(b: BasicExpression) -> AutoView
    decreases b,
{
    match b {
        BasicExpression::Anchor(a) => from_anchor_spec(a),
        BasicExpression::Quantified(q) => compile_quantified_spec(q),
    }
}

pub open spec fn compile_quantified_spec(q: Quantified) -> AutoView
    decreases q,
{
    let av = compile_quantifiable_spec(q.quantifiable);
    match q.quantifier {
        None => av,
        Some(Quantifier::ZeroOrMore) => closure_spec(av),
        Some(Quantifier::OneOrMore) => plus_spec(av),
        Some(Quantifier::ZeroOrOne) => optional_spec(av),
        Some(Quantifier::Range(l, u)) => range_auto(av, l, u),
    }
}

pub open spec fn compile_quantifiable_spec(qf: Quantifiable) -> AutoView
    decreases qf,
{
    match qf {
        Quantifiable::Group(g) => compile_expr_spec(*g.0),
        Quantifiable::Match(m) => compile_match_spec(m),
        // A backreference never compiles; the value is immaterial.
        Quantifiable::Backreference(n) => from_token_spec(' '),
    }
}



// ---------------------------------------------------------------------------
// The executable compiler. Each method returns exactly the automaton its
// spec-level mirror describes, or a discriminated error on the trees that
// do not compile.
// ---------------------------------------------------------------------------

impl Expression {
    /// Compiles the alternatives left to right and joins them by
    /// alternation.
    pub fn compile(&self) -> (r: Result<Automata, Error>)
        ensures
            compiles_expr(*self) ==> (r matches Ok(a) && a@ == compile_expr_spec(*self)),
            !compiles_expr(*self) ==> (r matches Err(e) && e.kind != ErrorKind::InvalidSyntax),
            r is Ok ==> expr_error(*self) is None,
            r matches Err(e) ==> expr_error(*self) == Some(e.kind),
        decreases *self, 0int,
    {
        if self.0.len() == 0 {
            return Err(Error::from("Internal Error: Iterator was expected to be non-empty"));
        }
        let ghost whole = self.0@;
        let mut acc = match self.0[0].compile() {
            Ok(a) => a,
            Err(e) => {
                proof {
                    assert(subs_error(whole) == Some(e.kind));
                }
                return Err(e);
            }
        };
        proof {
            assert(self.0@.subrange(0, 1)[0] == self.0@[0]);
            assert(acc@ == compile_subs_spec(self.0@.subrange(0, 1)));
            assert(whole.subrange(1, whole.len() as int) =~= whole.drop_first());
            assert(subs_error(whole.subrange(1, whole.len() as int)) == subs_error(whole));
        }
        let mut i: usize = 1;
        while i < self.0.len()
            invariant
                whole == self.0@,
                1 <= i <= self.0@.len(),
                forall|k: int| 0 <= k < i ==> compiles_sub(#[trigger] self.0@[k]),
                acc@ == compile_subs_spec(self.0@.subrange(0, i as int)),
                subs_error(whole.subrange(i as int, whole.len() as int)) == subs_error(whole),
            decreases self.0@.len() - i,
        {
            let ghost rest = whole.subrange(i as int, whole.len() as int);
            let b = match self.0[i].compile() {
                Ok(a) => a,
                Err(e) => {
                    proof {
                        assert(rest[0] == whole[i as int]);
                        assert(subs_error(rest) == Some(e.kind));
                    }
                    return Err(e);
                }
            };
            acc = acc.or(b);
            proof {
                assert(self.0@.subrange(0, i + 1).drop_last() =~= self.0@.subrange(0, i as int));
                assert(self.0@.subrange(0, i + 1).last() == self.0@[i as int]);
                assert(rest[0] == whole[i as int]);
                assert(rest.drop_first() =~= whole.subrange(i + 1, whole.len() as int));
                assert(subs_error(whole.subrange(i + 1, whole.len() as int)) == subs_error(
                    whole,
                ));
            }
            i += 1;
        }
        proof {
            assert(self.0@.subrange(0, self.0@.len() as int) =~= self.0@);
            assert(whole.subrange(whole.len() as int, whole.len() as int)
                =~= Seq::<SubExpression>::empty());
            assert(subs_error(whole) is None);
        }
        Ok(acc)
    }
}

impl SubExpression {
    /// Compiles the pieces left to right and joins them by concatenation.
    pub fn compile(&self) -> (r: Result<Automata, Error>)
        ensures
            compiles_sub(*self) ==> (r matches Ok(a) && a@ == compile_sub_spec(*self)),
            !compiles_sub(*self) ==> (r matches Err(e) && e.kind != ErrorKind::InvalidSyntax),
            r is Ok ==> sub_error(*self) is None,
            r matches Err(e) ==> sub_error(*self) == Some(e.kind),
        decreases *self, 0int,
    {
        if self.0.len() == 0 {
            return Err(Error::from("Internal Error: Iterator was expected to be non-empty"));
        }
        let ghost whole = self.0@;
        let mut acc = match self.0[0].compile() {
            Ok(a) => a,
            Err(e) => {
                proof {
                    assert(basics_error(whole) == Some(e.kind));
                }
                return Err(e);
            }
        };
        proof {
            assert(self.0@.subrange(0, 1)[0] == self.0@[0]);
            assert(acc@ == compile_basics_spec(self.0@.subrange(0, 1)));
            assert(whole.subrange(1, whole.len() as int) =~= whole.drop_first());
            assert(basics_error(whole.subrange(1, whole.len() as int)) == basics_error(whole));
        }
        let mut i: usize = 1;
        while i < self.0.len()
            invariant
                whole == self.0@,
                1 <= i <= self.0@.len(),
                forall|k: int| 0 <= k < i ==> compiles_basic(#[trigger] self.0@[k]),
                acc@ == compile_basics_spec(self.0@.subrange(0, i as int)),
                basics_error(whole.subrange(i as int, whole.len() as int)) == basics_error(whole),
            decreases self.0@.len() - i,
        {
            let ghost rest = whole.subrange(i as int, whole.len() as int);
            let b = match self.0[i].compile() {
                Ok(a) => a,
                Err(e) => {
                    proof {
                        assert(rest[0] == whole[i as int]);
                        assert(basics_error(rest) == Some(e.kind));
                    }
                    return Err(e);
                }
            };
            acc = acc.concat(b);
            proof {
                assert(self.0@.subrange(0, i + 1).drop_last() =~= self.0@.subrange(0, i as int));
                assert(self.0@.subrange(0, i + 1).last() == self.0@[i as int]);
                assert(rest[0] == whole[i as int]);
                assert(rest.drop_first() =~= whole.subrange(i + 1, whole.len() as int));
                assert(basics_error(whole.subrange(i + 1, whole.len() as int)) == basics_error(
                    whole,
                ));
            }
            i += 1;
        }
        proof {
            assert(self.0@.subrange(0, self.0@.len() as int) =~= self.0@);
            assert(whole.subrange(whole.len() as int, whole.len() as int)
                =~= Seq::<BasicExpression>::empty());
            assert(basics_error(whole) is None);
        }
        Ok(acc)
    }
}

impl BasicExpression {
    /// Compiles an anchor assertion or a quantified construct.
    pub fn compile(&self) -> (r: Result<Automata, Error>)
        ensures
            compiles_basic(*self) ==> (r matches Ok(a) && a@ == compile_basic_spec(*self)),
            !compiles_basic(*self) ==> (r matches Err(e) && e.kind != ErrorKind::InvalidSyntax),
            r is Ok ==> basic_error(*self) is None,
            r matches Err(e) ==> basic_error(*self) == Some(e.kind),
        decreases *self, 0int,
    {
        match self {
            BasicExpression::Anchor(a) => a.compile(),
            BasicExpression::Quantified(q) => q.compile(),
        }
    }
}

impl Anchor {
    /// Compiles to a single anchor-guarded state.
    pub fn compile(&self) -> (r: Result<Automata, Error>)
        ensures
            r matches Ok(a) && a@ == from_anchor_spec(*self),
    {
        Ok(Automata::from_anchor(*self))
    }
}

impl Quantified {
    /// Compiles the quantifiable and applies its quantifier: closure, plus,
    /// optional, or an expanded repetition range.
    pub fn compile(&self) -> (r: Result<Automata, Error>)
        ensures
            compiles_quantified(*self) ==> (r matches Ok(a) && a@ == compile_quantified_spec(
                *self,
            )),
            !compiles_quantified(*self) ==> (r matches Err(e) && e.kind
                != ErrorKind::InvalidSyntax),
            r is Ok ==> quantified_error(*self) is None,
            r matches Err(e) ==> quantified_error(*self) == Some(e.kind),
        decreases *self, 0int,
    {
        match &self.quantifier {
            None => self.quantifiable.compile(),
            Some(Quantifier::ZeroOrMore) => match self.quantifiable.compile() {
                Ok(a) => Ok(a.closure()),
                Err(e) => Err(e),
            },
            Some(Quantifier::OneOrMore) => match self.quantifiable.compile() {
                Ok(a) => Ok(a.plus()),
                Err(e) => Err(e),
            },
            Some(Quantifier::ZeroOrOne) => match self.quantifiable.compile() {
                Ok(a) => Ok(a.optional()),
                Err(e) => Err(e),
            },
            Some(Quantifier::Range(l, u)) => compile_range(&self.quantifiable, *l, *u),
        }
    }
}

/// Compiles `qf{l}`, `qf{l,}` or `qf{l,u}`: `l` mandatory copies, then
/// optional copies up to `u`, or a trailing closure when there is no upper
/// bound. Each copy is compiled afresh, so the copies share no states.
fn compile_range(qf: &Quantifiable, l: u32, u: Option<u32>) -> (r: Result<Automata, Error>)
    ensures
        (compiles_quantifiable(*qf) && !(l == 0 && u == Some(0u32))) ==> (r matches Ok(a) && a@
            == range_auto(compile_quantifiable_spec(*qf), l, u)),
        !(compiles_quantifiable(*qf) && !(l == 0 && u == Some(0u32))) ==> (r matches Err(e)
            && e.kind != ErrorKind::InvalidSyntax),
        r is Ok ==> !(l == 0 && u == Some(0u32)) && quantifiable_error(*qf) is None,
        r matches Err(e) ==> (if l == 0 && u == Some(0u32) {
            e.kind == ErrorKind::InternalInvariantViolation
        } else {
            quantifiable_error(*qf) == Some(e.kind)
        }),
    decreases *qf, 1int,
{
    if l == 0 && u == Some(0u32) {
        return Err(Error::from("Internal Error: Iterator was expected to be non-empty"));
    }
    let base = match qf.compile() {
        Ok(a) => a,
        Err(e) => {
            return Err(e);
        }
    };
    let ghost av = compile_quantifiable_spec(*qf);
    match u {
        None => {
            if l == 0 {
                Ok(base.closure())
            } else {
                let mut acc = base;
                let mut i: u32 = 1;
                while i < l
                    invariant
                        compiles_quantifiable(*qf),
                        av == compile_quantifiable_spec(*qf),
                        1 <= i <= l,
                        acc@ == concat_more(av, av, (i - 1) as nat),
                    decreases l - i,
                {
                    let copy = match qf.compile() {
                        Ok(a) => a,
                        Err(e) => {
                            proof {
                                assert(false);
                            }
                            return Err(e);
                        }
                    };
                    acc = acc.concat(copy);
                    i += 1;
                }
                let tail_copy = match qf.compile() {
                    Ok(a) => a,
                    Err(e) => {
                        proof {
                            assert(false);
                        }
                        return Err(e);
                    }
                };
                Ok(acc.concat(tail_copy.closure()))
            }
        }
        Some(uu) => {
            if l == 0 {
                let mut acc = base.optional();
                let mut i: u32 = 1;
                while i < uu
                    invariant
                        compiles_quantifiable(*qf),
                        av == compile_quantifiable_spec(*qf),
                        1 <= i <= uu,
                        acc@ == concat_more(optional_spec(av), optional_spec(av), (i - 1) as nat),
                    decreases uu - i,
                {
                    let copy = match qf.compile() {
                        Ok(a) => a,
                        Err(e) => {
                            proof {
                                assert(false);
                            }
                            return Err(e);
                        }
                    };
                    acc = acc.concat(copy.optional());
                    i += 1;
                }
                Ok(acc)
            } else {
                let mut acc = base;
                let mut i: u32 = 1;
                while i < l
                    invariant
                        compiles_quantifiable(*qf),
                        av == compile_quantifiable_spec(*qf),
                        1 <= i <= l,
                        acc@ == concat_more(av, av, (i - 1) as nat),
                    decreases l - i,
                {
                    let copy = match qf.compile() {
                        Ok(a) => a,
                        Err(e) => {
                            proof {
                                assert(false);
                            }
                            return Err(e);
                        }
                    };
                    acc = acc.concat(copy);
                    i += 1;
                }
                if uu <= l {
                    Ok(acc)
                } else {
                    let mut i: u32 = 0;
                    while i < uu - l
                        invariant
                            compiles_quantifiable(*qf),
                            av == compile_quantifiable_spec(*qf),
                            uu > l >= 1,
                            i <= uu - l,
                            acc@ == concat_more(
                                concat_more(av, av, (l - 1) as nat),
                                optional_spec(av),
                                i as nat,
                            ),
                        decreases uu - l - i,
                    {
                        let copy = match qf.compile() {
                            Ok(a) => a,
                            Err(e) => {
                                proof {
                                    assert(false);
                                }
                                return Err(e);
                            }
                        };
                        acc = acc.concat(copy.optional());
                        i += 1;
                    }
                    Ok(acc)
                }
            }
        }
    }
}

impl Quantifiable {
    /// Compiles a group, a match construct, or rejects a backreference.
    pub fn compile(&self) -> (r: Result<Automata, Error>)
        ensures
            compiles_quantifiable(*self) ==> (r matches Ok(a) && a@ == compile_quantifiable_spec(
                *self,
            )),
            !compiles_quantifiable(*self) ==> (r matches Err(e) && e.kind
                != ErrorKind::InvalidSyntax),
            self is Backreference ==> (r matches Err(e) && e.kind
                == ErrorKind::UnsupportedFeature),
            r is Ok ==> quantifiable_error(*self) is None,
            r matches Err(e) ==> quantifiable_error(*self) == Some(e.kind),
        decreases *self, 0int,
    {
        match self {
            Quantifiable::Group(g) => g.compile(),
            Quantifiable::Match(m) => m.compile(),
            Quantifiable::Backreference(_) => Err(
                Error::unsupported("Internal Error: Backreference not implemented!"),
            ),
        }
    }
}

impl Group {
    /// A group is transparent: it compiles to its inner expression's
    /// automaton.
    pub fn compile(&self) -> (r: Result<Automata, Error>)
        ensures
            compiles_expr(*self.0) ==> (r matches Ok(a) && a@ == compile_expr_spec(*self.0)),
            !compiles_expr(*self.0) ==> (r matches Err(e) && e.kind != ErrorKind::InvalidSyntax),
            r is Ok ==> expr_error(*self.0) is None,
            r matches Err(e) ==> expr_error(*self.0) == Some(e.kind),
        decreases *self, 0int,
    {
        self.0.compile()
    }
}

impl Match {
    /// Compiles the dot, a character class, a character group, or a single
    /// character.
    pub fn compile(&self) -> (r: Result<Automata, Error>)
        ensures
            compiles_match(*self) ==> (r matches Ok(a) && a@ == compile_match_spec(*self)),
            !compiles_match(*self) ==> (r matches Err(e) && e.kind
                == ErrorKind::InternalInvariantViolation),
    {
        match self {
            Match::Any => Ok(Automata::from_lambda(Lambda::Any)),
            Match::CharacterClass(cc) => cc.compile(),
            Match::CharacterGroup(cg) => cg.compile(),
            Match::Char(c) => Ok(Automata::from_token(*c)),
        }
    }
}

impl CharacterClass {
    /// Compiles to a single predicate-guarded state.
    pub fn compile(&self) -> (r: Result<Automata, Error>)
        ensures
            r matches Ok(a) && a@ == from_lambda_spec(class_lambda(*self)),
    {
        let lambda = match self {
            CharacterClass::Alphanumeric => Lambda::Alphanumeric,
            CharacterClass::NotAlphanumeric => Lambda::NotAlphanumeric,
            CharacterClass::Digit => Lambda::Digit,
            CharacterClass::NotDigit => Lambda::NotDigit,
            CharacterClass::Whitespace => Lambda::Whitespace,
            CharacterClass::NotWhitespace => Lambda::NotWhitespace,
        };
        Ok(Automata::from_lambda(lambda))
    }
}

impl CharacterGroup {
    /// Compiles the items left to right and joins them by alternation.
    pub fn compile(&self) -> (r: Result<Automata, Error>)
        ensures
            self.0@.len() > 0 ==> (r matches Ok(a) && a@ == or_fold_items(self.0@)),
            self.0@.len() == 0 ==> (r matches Err(e) && e.kind
                == ErrorKind::InternalInvariantViolation),
    {
        if self.0.len() == 0 {
            return Err(Error::from("Internal Error: Iterator was expected to be non-empty"));
        }
        let mut acc = match self.0[0].compile() {
            Ok(a) => a,
            Err(e) => {
                proof {
                    assert(false);
                }
                return Err(e);
            }
        };
        proof {
            assert(self.0@.subrange(0, 1)[0] == self.0@[0]);
            assert(acc@ == or_fold_items(self.0@.subrange(0, 1)));
        }
        let mut i: usize = 1;
        while i < self.0.len()
            invariant
                1 <= i <= self.0@.len(),
                acc@ == or_fold_items(self.0@.subrange(0, i as int)),
            decreases self.0@.len() - i,
        {
            let b = match self.0[i].compile() {
                Ok(a) => a,
                Err(e) => {
                    proof {
                        assert(false);
                    }
                    return Err(e);
                }
            };
            acc = acc.or(b);
            proof {
                assert(self.0@.subrange(0, i + 1).drop_last() =~= self.0@.subrange(0, i as int));
                assert(self.0@.subrange(0, i + 1).last() == self.0@[i as int]);
            }
            i += 1;
        }
        proof {
            assert(self.0@.subrange(0, self.0@.len() as int) =~= self.0@);
        }
        Ok(acc)
    }
}

impl CharacterGroupItem {
    /// Compiles one item of a character group.
    pub fn compile(&self) -> (r: Result<Automata, Error>)
        ensures
            r matches Ok(a) && a@ == item_auto(*self),
    {
        match self {
            CharacterGroupItem::CharacterClass(cc) => cc.compile(),
            CharacterGroupItem::CharacterRange(lo, hi) => Ok(
                Automata::from_lambda(Lambda::Range(*lo, *hi)),
            ),
            CharacterGroupItem::Char(c) => Ok(Automata::from_token(*c)),
        }
    }
}


// ---------------------------------------------------------------------------
// The kind of the first fault the compiler meets in a tree, walking the
// alternatives left to right and each concatenation left to right: the
// error a failing `compile` reports carries exactly this kind.
// ---------------------------------------------------------------------------

pub open spec fn expr_error(e: Expression) -> Option<ErrorKind>
    decreases e,
{
    if e.0@.len() == 0 {
        Some(ErrorKind::InternalInvariantViolation)
    } else {
        subs_error(e.0@)
    }
}

pub open spec fn subs_error(ss: Seq<SubExpression>) -> Option<ErrorKind>
    decreases ss,
{
    if ss.len() == 0 {
        None
    } else {
        match sub_error(ss[0]) {
            Some(k) => Some(k),
            None => subs_error(ss.drop_first()),
        }
    }
}

pub open spec fn sub_error(se: SubExpression) -> Option<ErrorKind>
    decreases se,
{
    if se.0@.len() == 0 {
        Some(ErrorKind::InternalInvariantViolation)
    } else {
        basics_error(se.0@)
    }
}

pub open spec fn basics_error(bs: Seq<BasicExpression>) -> Option<ErrorKind>
    decreases bs,
{
    if bs.len() == 0 {
        None
    } else {
        match basic_error(bs[0]) {
            Some(k) => Some(k),
            None => basics_error(bs.drop_first()),
        }
    }
}

pub open spec fn basic_error(b: BasicExpression) -> Option<ErrorKind>
    decreases b,
{
    match b {
        BasicExpression::Anchor(a) => None,
        BasicExpression::Quantified(q) => quantified_error(q),
    }
}

pub open spec fn quantified_error(q: Quantified) -> Option<ErrorKind>
    decreases q,
{
    if q.quantifier == Some(Quantifier::Range(0, Some(0u32))) {
        Some(ErrorKind::InternalInvariantViolation)
    } else {
        quantifiable_error(q.quantifiable)
    }
}

pub open spec fn quantifiable_error(qf: Quantifiable) -> Option<ErrorKind>
    decreases qf,
{
    match qf {
        Quantifiable::Group(g) => expr_error(*g.0),
        Quantifiable::Match(m) => if compiles_match(m) {
            None
        } else {
            Some(ErrorKind::InternalInvariantViolation)
        },
        Quantifiable::Backreference(n) => Some(ErrorKind::UnsupportedFeature),
    }
}

} // verus!
