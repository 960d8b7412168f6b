use vstd::prelude::*;

use crate::ast::{compile_expr_spec, compile_quantifiable_spec, compile_quantified_spec};
use crate::grammar::{Expression, Group, Quantifiable, Quantified, Quantifier};
use crate::semantics::{
    admitted, admitted_up_to, best_ends, can_admit, first_longest, lemma_admitted_bounds,
    lemma_best_ends_bounds, match_strings, spec_full_match, spec_global_search,
    spec_greedy_search, AutoView,
};

verus! {

/// A greedy search yields nothing exactly when a global search yields
/// nothing.
pub proof fn lemma_greedy_none_iff_global_empty(a: AutoView, s: Seq<char>)
    ensures
        spec_greedy_search(a, s) is None <==> spec_global_search(a, s).len() == 0,
{
}

/// Structure of the first-longest choice: the chosen element occurs in the
/// list, nothing in the list is longer, and everything before it is
/// strictly shorter.
proof fn lemma_first_longest_props(ms: Seq<Seq<char>>)
    ensures
        ms.len() == 0 <==> first_longest(ms) is None,
        first_longest(ms) matches Some(m) ==> exists|i: int|
            {
                &&& 0 <= i < ms.len()
                &&& #[trigger] ms[i] == m
                &&& (forall|j: int| 0 <= j < i ==> (#[trigger] ms[j]).len() < m.len())
                &&& (forall|j: int| 0 <= j < ms.len() ==> (#[trigger] ms[j]).len() <= m.len())
            },
    decreases ms.len(),
{
    if ms.len() > 0 {
        lemma_first_longest_props(ms.drop_last());
        let m = first_longest(ms)->0;
        match first_longest(ms.drop_last()) {
            None => {
                assert(ms.len() == 1);
                assert(m == ms[0]);
                assert(0 <= 0 < ms.len() && ms[0] == m && (forall|j: int|
                    0 <= j < 0 ==> (#[trigger] ms[j]).len() < m.len()) && (forall|j: int|
                    0 <= j < ms.len() ==> (#[trigger] ms[j]).len() <= m.len()));
            }
            Some(pm) => {
                let pi = choose|i: int|
                    {
                        &&& 0 <= i < ms.drop_last().len()
                        &&& #[trigger] ms.drop_last()[i] == pm
                        &&& (forall|j: int|
                            0 <= j < i ==> (#[trigger] ms.drop_last()[j]).len() < pm.len())
                        &&& (forall|j: int|
                            0 <= j < ms.drop_last().len() ==> (#[trigger] ms.drop_last()[j]).len()
                                <= pm.len())
                    };
                if ms.last().len() > pm.len() {
                    let i = ms.len() - 1;
                    assert(ms[i] == m);
                    assert forall|j: int| 0 <= j < i implies (#[trigger] ms[j]).len() < m.len() by {
                        assert(ms.drop_last()[j] == ms[j]);
                    }
                    assert forall|j: int| 0 <= j < ms.len() implies (#[trigger] ms[j]).len()
                        <= m.len() by {
                        if j < i {
                            assert(ms.drop_last()[j] == ms[j]);
                        }
                    }
                    assert(0 <= i < ms.len() && ms[i] == m && (forall|j: int|
                        0 <= j < i ==> (#[trigger] ms[j]).len() < m.len()) && (forall|j: int|
                        0 <= j < ms.len() ==> (#[trigger] ms[j]).len() <= m.len()));
                } else {
                    assert(m == pm);
                    assert(ms[pi] == ms.drop_last()[pi]);
                    assert forall|j: int| 0 <= j < pi implies (#[trigger] ms[j]).len() < m.len() by {
                        assert(ms.drop_last()[j] == ms[j]);
                    }
                    assert forall|j: int| 0 <= j < ms.len() implies (#[trigger] ms[j]).len()
                        <= m.len() by {
                        if j < ms.len() - 1 {
                            assert(ms.drop_last()[j] == ms[j]);
                        }
                    }
                    assert(0 <= pi < ms.len() && ms[pi] == m && (forall|j: int|
                        0 <= j < pi ==> (#[trigger] ms[j]).len() < m.len()) && (forall|j: int|
                        0 <= j < ms.len() ==> (#[trigger] ms[j]).len() <= m.len()));
                }
            }
        }
    }
}

/// When a greedy search finds a match, that match is one of the global
/// matches, none is longer, and every earlier one is strictly shorter: the
/// greedy match is the leftmost longest.
pub proof fn lemma_greedy_is_leftmost_longest(a: AutoView, s: Seq<char>)
    ensures
        spec_greedy_search(a, s) matches Some(m) ==> exists|i: int|
            {
                &&& 0 <= i < spec_global_search(a, s).len()
                &&& #[trigger] spec_global_search(a, s)[i] == m
                &&& (forall|j: int|
                    0 <= j < i ==> (#[trigger] spec_global_search(a, s)[j]).len() < m.len())
                &&& (forall|j: int|
                    0 <= j < spec_global_search(a, s).len() ==> (#[trigger] spec_global_search(
                        a,
                        s,
                    )[j]).len() <= m.len())
            },
{
    lemma_first_longest_props(spec_global_search(a, s));
}

/// The admitted intervals have non-decreasing ends; any later interval
/// starts at or after any earlier one's end and reaches strictly further.
proof fn lemma_admitted_ordered(bests: Seq<Option<int>>, k: int)
    requires
        0 <= k <= bests.len(),
    ensures
        forall|i: int, j: int|
            0 <= i < j < admitted_up_to(bests, k).len() ==> {
                let mi = #[trigger] admitted_up_to(bests, k)[i];
                let mj = #[trigger] admitted_up_to(bests, k)[j];
                mi.1 <= mj.0 && mi.1 < mj.1
            },
        forall|i: int, j: int|
            0 <= i <= j < admitted_up_to(bests, k).len() ==> (#[trigger] admitted_up_to(
                bests,
                k,
            )[i]).1 <= (#[trigger] admitted_up_to(bests, k)[j]).1,
    decreases k,
{
    if k > 0 {
        lemma_admitted_ordered(bests, k - 1);
        let prev = admitted_up_to(bests, k - 1);
        let cur = admitted_up_to(bests, k);
        match bests[k - 1] {
            Option::None => {}
            Option::Some(r) => {
                if can_admit(prev, k - 1, r) {
                    assert(cur == prev.push((k - 1, r)));
                    assert forall|i: int, j: int| 0 <= i < j < cur.len() implies {
                        let mi = #[trigger] cur[i];
                        let mj = #[trigger] cur[j];
                        mi.1 <= mj.0 && mi.1 < mj.1
                    } by {
                        if j == cur.len() - 1 {
                            assert(cur[j] == (k - 1, r));
                            assert(cur[i] == prev[i]);
                            if prev.len() > 0 {
                                assert(prev[i].1 <= prev[prev.len() - 1].1);
                                assert(prev.last() == prev[prev.len() - 1]);
                            }
                        } else {
                            assert(cur[i] == prev[i] && cur[j] == prev[j]);
                        }
                    }
                    assert forall|i: int, j: int| 0 <= i <= j < cur.len() implies (#[trigger] cur[i]).1
                        <= (#[trigger] cur[j]).1 by {
                        if j == cur.len() - 1 {
                            if i < j {
                                assert(cur[i] == prev[i]);
                                assert(prev[i].1 <= prev[prev.len() - 1].1);
                                assert(prev.last() == prev[prev.len() - 1]);
                            }
                        } else {
                            assert(cur[i] == prev[i] && cur[j] == prev[j]);
                        }
                    }
                }
            }
        }
    }
}

/// Global search reports matches whose intervals lie inside the input, in
/// non-decreasing start order, pairwise non-overlapping, each reaching
/// strictly further than the one before.
pub proof fn lemma_global_search_sorted_disjoint(a: AutoView, s: Seq<char>)
    ensures
        spec_global_search(a, s).len() == admitted(best_ends(a, s)).len(),
        forall|i: int|
            0 <= i < admitted(best_ends(a, s)).len() ==> {
                let m = #[trigger] admitted(best_ends(a, s))[i];
                0 <= m.0 <= m.1 <= s.len() && #[trigger] spec_global_search(a, s)[i] == s.subrange(
                    m.0,
                    m.1,
                )
            },
        forall|i: int, j: int|
            0 <= i < j < admitted(best_ends(a, s)).len() ==> {
                let mi = #[trigger] admitted(best_ends(a, s))[i];
                let mj = #[trigger] admitted(best_ends(a, s))[j];
                mi.0 <= mj.0 && mi.1 <= mj.0 && mi.1 < mj.1
            },
{
    let bests = best_ends(a, s);
    let ad = admitted(bests);
    lemma_best_ends_bounds(a, s);
    lemma_admitted_bounds(bests, s.len() as int, bests.len() as int);
    lemma_admitted_ordered(bests, bests.len() as int);
    assert forall|i: int, j: int| 0 <= i < j < ad.len() implies {
        let mi = #[trigger] ad[i];
        let mj = #[trigger] ad[j];
        mi.0 <= mj.0 && mi.1 <= mj.0 && mi.1 < mj.1
    } by {
        assert(ad[i].0 <= ad[i].1);
    }
}

/// A full match holds exactly when global search admits the whole input as
/// one of its matches.
pub proof fn lemma_full_match_iff_whole_input(a: AutoView, s: Seq<char>)
    ensures
        spec_full_match(a, s) <==> exists|i: int|
            {
                &&& 0 <= i < spec_global_search(a, s).len()
                &&& admitted(best_ends(a, s))[i] == (0int, s.len() as int)
                &&& #[trigger] spec_global_search(a, s)[i] == s
            },
{
    let bests = best_ends(a, s);
    let ad = admitted(bests);
    let g = spec_global_search(a, s);
    lemma_global_search_sorted_disjoint(a, s);
    lemma_first_longest_props(g);
    if spec_full_match(a, s) {
        let m = spec_greedy_search(a, s)->0;
        assert(m.len() == s.len());
        let i = choose|i: int|
            {
                &&& 0 <= i < g.len()
                &&& #[trigger] g[i] == m
                &&& (forall|j: int| 0 <= j < i ==> (#[trigger] g[j]).len() < m.len())
                &&& (forall|j: int| 0 <= j < g.len() ==> (#[trigger] g[j]).len() <= m.len())
            };
        assert(g[i] == s.subrange(ad[i].0, ad[i].1));
        assert(ad[i].1 - ad[i].0 == s.len());
        assert(ad[i] == (0int, s.len() as int));
        assert(g[i] =~= s);
    }
    if exists|i: int|
        {
            &&& 0 <= i < g.len()
            &&& admitted(best_ends(a, s))[i] == (0int, s.len() as int)
            &&& #[trigger] g[i] == s
        } {
        let i = choose|i: int|
            {
                &&& 0 <= i < g.len()
                &&& admitted(best_ends(a, s))[i] == (0int, s.len() as int)
                &&& #[trigger] g[i] == s
            };
        assert(g.len() > 0);
        let m = first_longest(g)->0;
        let w = choose|w: int|
            {
                &&& 0 <= w < g.len()
                &&& #[trigger] g[w] == m
                &&& (forall|j: int| 0 <= j < w ==> (#[trigger] g[j]).len() < m.len())
                &&& (forall|j: int| 0 <= j < g.len() ==> (#[trigger] g[j]).len() <= m.len())
            };
        assert(g[i].len() <= m.len());
        assert(g[w] == s.subrange(ad[w].0, ad[w].1));
        assert(m.len() <= s.len());
        assert(m.len() == s.len());
    }
}

/// The three search modes are functions of the compiled automaton and the
/// input alone: equal automata give equal results on every input, so
/// compiling once and searching repeatedly always reproduces the same
/// answers.
pub proof fn lemma_search_deterministic(a1: AutoView, a2: AutoView, s: Seq<char>)
    requires
        a1 == a2,
    ensures
        spec_full_match(a1, s) == spec_full_match(a2, s),
        spec_greedy_search(a1, s) == spec_greedy_search(a2, s),
        spec_global_search(a1, s) == spec_global_search(a2, s),
{
}


/// Quantifier identities: `a{1}` compiles to exactly the automaton of `a`,
/// `a{0,}` to exactly that of `a*`, and `a{0,1}` to exactly that of `a?`;
/// equal automata have equal match sets on every input.
pub proof fn lemma_quantifier_identities(qf: Quantifiable)
    ensures
        compile_quantified_spec(
            Quantified { quantifiable: qf, quantifier: Some(Quantifier::Range(1, Some(1))) },
        ) == compile_quantified_spec(Quantified { quantifiable: qf, quantifier: None }),
        compile_quantified_spec(
            Quantified { quantifiable: qf, quantifier: Some(Quantifier::Range(0, None)) },
        ) == compile_quantified_spec(
            Quantified { quantifiable: qf, quantifier: Some(Quantifier::ZeroOrMore) },
        ),
        compile_quantified_spec(
            Quantified { quantifiable: qf, quantifier: Some(Quantifier::Range(0, Some(1))) },
        ) == compile_quantified_spec(
            Quantified { quantifiable: qf, quantifier: Some(Quantifier::ZeroOrOne) },
        ),
{
}

/// Group transparency: a parenthesised expression compiles to exactly the
/// automaton of the expression itself, so `(r)` and `r` have equal match
/// sets on every input.
pub proof fn lemma_group_transparent(g: Group)
    ensures
        compile_quantifiable_spec(Quantifiable::Group(g)) == compile_expr_spec(*g.0),
        compile_quantified_spec(
            Quantified { quantifiable: Quantifiable::Group(g), quantifier: None },
        ) == compile_expr_spec(*g.0),
{
}

} // verus!
