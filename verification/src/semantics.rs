use vstd::prelude::*;

use crate::state::{Anchor, Lambda, StateNode};

verus! {

/// The mathematical value of one automaton state: as [`StateNode`], with
/// mathematical integers for the edge indices.
#[verifier::ext_equal]
pub enum StateView {
    Trivial { dests: Seq<int> },
    Token { token: char, dest: int },
    Lambda { lambda: Lambda, dest: int },
    Anchor { anchor: Anchor, dest: int },
}

/// The mathematical value of an automaton: a sequence of states, the index
/// of the start state and the index of the accept state.
#[verifier::ext_equal]
pub struct AutoView {
    pub states: Seq<StateView>,
    pub start: int,
    pub accept: int,
}

impl View for StateNode {
    type V = StateView;

    open spec fn view(&self) -> StateView {
        match self {
            StateNode::Trivial { dests } => StateView::Trivial {
                dests: Seq::new(dests@.len(), |i: int| dests@[i] as int),
            },
            StateNode::Token { token, dest } => StateView::Token { token: *token, dest: *dest as int },
            StateNode::Lambda { lambda, dest } => StateView::Lambda {
                lambda: *lambda,
                dest: *dest as int,
            },
            StateNode::Anchor { anchor, dest } => StateView::Anchor {
                anchor: *anchor,
                dest: *dest as int,
            },
        }
    }
}

/// The views of a sequence of states.
pub open spec fn state_views(s: Seq<StateNode>) -> Seq<StateView> {
    Seq::new(s.len(), |i: int| s[i]@)
}

/// All edges of `s` point below `n`.
pub open spec fn state_wf(s: StateView, n: int) -> bool {
    match s {
        StateView::Trivial { dests } => forall|k: int| 0 <= k < dests.len() ==> 0 <= #[trigger] dests[k] < n,
        StateView::Token { token, dest } => 0 <= dest < n,
        StateView::Lambda { lambda, dest } => 0 <= dest < n,
        StateView::Anchor { anchor, dest } => 0 <= dest < n,
    }
}

/// Well-formedness of an automaton: start and accept are valid indices,
/// every edge stays inside the arena, and the accept state is a `Trivial`
/// state with no outgoing edges, so that epsilon expansion stops there.
pub open spec fn auto_wf(a: AutoView) -> bool {
    &&& 0 <= a.start < a.states.len()
    &&& 0 <= a.accept < a.states.len()
    &&& (forall|i: int| 0 <= i < a.states.len() ==> state_wf(#[trigger] a.states[i], a.states.len() as int))
    &&& a.states[a.accept] == (StateView::Trivial { dests: Seq::<int>::empty() })
}

// Spec-level images of the automaton constructors. Each one describes the
// exact arena the executable constructor builds.

/// The state `s` with every edge moved up by `off`.
pub open spec fn shift_state(s: StateView, off: int) -> StateView {
    match s {
        StateView::Trivial { dests } => StateView::Trivial {
            dests: Seq::new(dests.len(), |i: int| dests[i] + off),
        },
        StateView::Token { token, dest } => StateView::Token { token, dest: dest + off },
        StateView::Lambda { lambda, dest } => StateView::Lambda { lambda, dest: dest + off },
        StateView::Anchor { anchor, dest } => StateView::Anchor { anchor, dest: dest + off },
    }
}

/// All states of `ss` with every edge moved up by `off`.
pub open spec fn shift_states(ss: Seq<StateView>, off: int) -> Seq<StateView> {
    Seq::new(ss.len(), |i: int| shift_state(ss[i], off))
}

/// `ss` with extra epsilon edges `extra` appended to the `Trivial` state at
/// index `i`.
pub open spec fn patch(ss: Seq<StateView>, i: int, extra: Seq<int>) -> Seq<StateView> {
    ss.update(i, StateView::Trivial { dests: ss[i]->Trivial_dests + extra })
}

/// A two-state automaton consuming exactly the character `token`.
pub open spec fn from_token_spec(token: char) -> AutoView {
    AutoView {
        states: seq![
            StateView::Token { token, dest: 1 },
            StateView::Trivial { dests: Seq::<int>::empty() },
        ],
        start: 0,
        accept: 1,
    }
}

/// A two-state automaton consuming exactly the characters accepted by `lambda`.
pub open spec fn from_lambda_spec(lambda: Lambda) -> AutoView {
    AutoView {
        states: seq![
            StateView::Lambda { lambda, dest: 1 },
            StateView::Trivial { dests: Seq::<int>::empty() },
        ],
        start: 0,
        accept: 1,
    }
}

/// A two-state automaton whose single epsilon edge is enabled only at
/// positions tagged with `anchor`.
pub open spec fn from_anchor_spec(anchor: Anchor) -> AutoView {
    AutoView {
        states: seq![
            StateView::Anchor { anchor, dest: 1 },
            StateView::Trivial { dests: Seq::<int>::empty() },
        ],
        start: 0,
        accept: 1,
    }
}

/// Concatenation: `b`'s arena is appended to `a`'s, an epsilon edge joins
/// `a`'s accept to `b`'s start, and `b`'s accept becomes the accept.
pub open spec fn concat_spec(a: AutoView, b: AutoView) -> AutoView {
    let off = a.states.len() as int;
    let merged = a.states + shift_states(b.states, off);
    AutoView {
        states: patch(merged, a.accept, seq![b.start + off]),
        start: a.start,
        accept: b.accept + off,
    }
}

/// Alternation: a fresh start state branches into `a` and `b`; both accepts
/// flow into a fresh accept state.
pub open spec fn or_spec(a: AutoView, b: AutoView) -> AutoView {
    let off = a.states.len() as int;
    let n = off + b.states.len() as int;
    let merged = a.states + shift_states(b.states, off) + seq![
        StateView::Trivial { dests: seq![a.start, b.start + off] },
        StateView::Trivial { dests: Seq::<int>::empty() },
    ];
    AutoView {
        states: patch(patch(merged, a.accept, seq![n + 1]), b.accept + off, seq![n + 1]),
        start: n,
        accept: n + 1,
    }
}

/// Kleene closure: zero or more traversals of `a`.
pub open spec fn closure_spec(a: AutoView) -> AutoView {
    let n = a.states.len() as int;
    let merged = a.states + seq![
        StateView::Trivial { dests: seq![a.start, n + 1] },
        StateView::Trivial { dests: Seq::<int>::empty() },
    ];
    AutoView {
        states: patch(merged, a.accept, seq![a.start, n + 1]),
        start: n,
        accept: n + 1,
    }
}

/// Zero or one traversal of `a`.
pub open spec fn optional_spec(a: AutoView) -> AutoView {
    let n = a.states.len() as int;
    let merged = a.states + seq![
        StateView::Trivial { dests: seq![a.start, n + 1] },
        StateView::Trivial { dests: Seq::<int>::empty() },
    ];
    AutoView {
        states: patch(merged, a.accept, seq![n + 1]),
        start: n,
        accept: n + 1,
    }
}

/// Well-formedness is preserved when the arena only grows.
pub proof fn lemma_state_wf_mono(s: StateView, n: int, m: int)
    requires
        state_wf(s, n),
        n <= m,
    ensures
        state_wf(s, m),
{
}

/// The arena of `concat_spec(a, b)`, up to the patched accept state of `a`:
/// each state is well-formed in the combined arena.
pub proof fn lemma_concat_spec_wf(a: AutoView, b: AutoView)
    requires
        auto_wf(a),
        auto_wf(b),
    ensures
        auto_wf(concat_spec(a, b)),
{
    let off = a.states.len() as int;
    let n = off + b.states.len() as int;
    let c = concat_spec(a, b);
    assert(c.states.len() == n);
    assert forall|i: int| 0 <= i < n implies state_wf(#[trigger] c.states[i], n) by {
        if i == a.accept {
            assert(c.states[i] == (StateView::Trivial {
                dests: a.states[a.accept]->Trivial_dests + seq![b.start + off],
            }));
        } else if i < off {
            assert(c.states[i] == a.states[i]);
            lemma_state_wf_mono(a.states[i], off, n);
        } else {
            assert(c.states[i] == shift_state(b.states[i - off], off));
        }
    }
    assert(c.states[c.accept] =~~= (StateView::Trivial { dests: Seq::<int>::empty() }));
}

/// Helper for the four constructors that append a fresh start and a fresh
/// accept state to a merged arena and then patch old accept states.
proof fn lemma_two_fresh_wf(states: Seq<StateView>, n: int)
    requires
        states.len() == n + 2,
        n >= 0,
        forall|i: int| 0 <= i < n ==> state_wf(#[trigger] states[i], n + 2),
        state_wf(states[n], n + 2),
        states[n + 1] == (StateView::Trivial { dests: Seq::<int>::empty() }),
    ensures
        forall|i: int| 0 <= i < states.len() ==> state_wf(#[trigger] states[i], states.len() as int),
{
    assert forall|i: int| 0 <= i < states.len() implies state_wf(
        #[trigger] states[i],
        states.len() as int,
    ) by {
        if i == n + 1 {
            assert(states[i]->Trivial_dests.len() == 0);
        }
    }
}

/// `or_spec` preserves well-formedness.
pub proof fn lemma_or_spec_wf(a: AutoView, b: AutoView)
    requires
        auto_wf(a),
        auto_wf(b),
    ensures
        auto_wf(or_spec(a, b)),
{
    let off = a.states.len() as int;
    let n = off + b.states.len() as int;
    let c = or_spec(a, b);
    assert(c.states.len() == n + 2);
    assert forall|i: int| 0 <= i < n implies state_wf(#[trigger] c.states[i], n + 2) by {
        if i == a.accept {
            assert(c.states[i] == (StateView::Trivial {
                dests: a.states[a.accept]->Trivial_dests + seq![n + 1],
            }));
        } else if i == b.accept + off {
            assert(c.states[i] == (StateView::Trivial {
                dests: shift_state(b.states[b.accept], off)->Trivial_dests + seq![n + 1],
            }));
            assert(shift_state(b.states[b.accept], off)->Trivial_dests.len() == 0);
        } else if i < off {
            assert(c.states[i] == a.states[i]);
            lemma_state_wf_mono(a.states[i], off, n + 2);
        } else {
            assert(c.states[i] == shift_state(b.states[i - off], off));
        }
    }
    assert(state_wf(c.states[n], n + 2));
    assert(c.states[n + 1] =~~= (StateView::Trivial { dests: Seq::<int>::empty() }));
    lemma_two_fresh_wf(c.states, n);
}

/// `closure_spec` preserves well-formedness.
pub proof fn lemma_closure_spec_wf(a: AutoView)
    requires
        auto_wf(a),
    ensures
        auto_wf(closure_spec(a)),
{
    let n = a.states.len() as int;
    let c = closure_spec(a);
    assert(c.states.len() == n + 2);
    assert forall|i: int| 0 <= i < n implies state_wf(#[trigger] c.states[i], n + 2) by {
        if i == a.accept {
            assert(c.states[i] == (StateView::Trivial {
                dests: a.states[a.accept]->Trivial_dests + seq![a.start, n + 1],
            }));
        } else {
            assert(c.states[i] == a.states[i]);
            lemma_state_wf_mono(a.states[i], n, n + 2);
        }
    }
    assert(state_wf(c.states[n], n + 2));
    assert(c.states[n + 1] =~~= (StateView::Trivial { dests: Seq::<int>::empty() }));
    lemma_two_fresh_wf(c.states, n);
}

/// `optional_spec` preserves well-formedness.
pub proof fn lemma_optional_spec_wf(a: AutoView)
    requires
        auto_wf(a),
    ensures
        auto_wf(optional_spec(a)),
{
    let n = a.states.len() as int;
    let c = optional_spec(a);
    assert(c.states.len() == n + 2);
    assert forall|i: int| 0 <= i < n implies state_wf(#[trigger] c.states[i], n + 2) by {
        if i == a.accept {
            assert(c.states[i] == (StateView::Trivial {
                dests: a.states[a.accept]->Trivial_dests + seq![n + 1],
            }));
        } else {
            assert(c.states[i] == a.states[i]);
            lemma_state_wf_mono(a.states[i], n, n + 2);
        }
    }
    assert(state_wf(c.states[n], n + 2));
    assert(c.states[n + 1] =~~= (StateView::Trivial { dests: Seq::<int>::empty() }));
    lemma_two_fresh_wf(c.states, n);
}

/// `plus_spec` preserves well-formedness.
pub proof fn lemma_plus_spec_wf(a: AutoView)
    requires
        auto_wf(a),
    ensures
        auto_wf(plus_spec(a)),
{
    let n = a.states.len() as int;
    let c = plus_spec(a);
    assert(c.states.len() == n + 2);
    assert forall|i: int| 0 <= i < n implies state_wf(#[trigger] c.states[i], n + 2) by {
        if i == a.accept {
            assert(c.states[i] == (StateView::Trivial {
                dests: a.states[a.accept]->Trivial_dests + seq![a.start, n + 1],
            }));
        } else {
            assert(c.states[i] == a.states[i]);
            lemma_state_wf_mono(a.states[i], n, n + 2);
        }
    }
    assert(state_wf(c.states[n], n + 2));
    assert(c.states[n + 1] =~~= (StateView::Trivial { dests: Seq::<int>::empty() }));
    lemma_two_fresh_wf(c.states, n);
}

/// One or more traversals of `a`.
pub open spec fn plus_spec(a: AutoView) -> AutoView {
    let n = a.states.len() as int;
    let merged = a.states + seq![
        StateView::Trivial { dests: seq![a.start] },
        StateView::Trivial { dests: Seq::<int>::empty() },
    ];
    AutoView {
        states: patch(merged, a.accept, seq![a.start, n + 1]),
        start: n,
        accept: n + 1,
    }
}


// ---------------------------------------------------------------------------
// Simulation semantics: what running an automaton over an input means.
// ---------------------------------------------------------------------------

/// The epsilon successors of `s` that are enabled under the anchor tags in
/// force at the current position.
pub open spec fn eps_dests(s: StateView, tags: Seq<Anchor>) -> Seq<int> {
    match s {
        StateView::Trivial { dests } => dests,
        StateView::Anchor { anchor, dest } => if tags.contains(anchor) {
            seq![dest]
        } else {
            Seq::<int>::empty()
        },
        _ => Seq::<int>::empty(),
    }
}

/// A state where epsilon expansion stops under `tags`.
pub open spec fn is_stop(s: StateView, tags: Seq<Anchor>) -> bool {
    eps_dests(s, tags).len() == 0
}

/// `p` is a chain of states each linked to the next by an enabled epsilon
/// edge.
pub open spec fn is_eps_path(a: AutoView, tags: Seq<Anchor>, p: Seq<int>) -> bool {
    &&& p.len() >= 1
    &&& (forall|k: int| 0 <= k < p.len() ==> 0 <= #[trigger] p[k] < a.states.len())
    &&& (forall|k: int|
        0 <= k < p.len() - 1 ==> #[trigger] eps_dests(a.states[p[k]], tags).contains(p[k + 1]))
}

/// State `j` is reachable from the active set `from` through enabled
/// epsilon edges.
pub open spec fn eps_reachable(a: AutoView, tags: Seq<Anchor>, from: Seq<bool>, j: int) -> bool {
    exists|p: Seq<int>|
        #[trigger] is_eps_path(a, tags, p) && 0 <= p[0] < from.len() && from[p[0]] && p.last() == j
}

/// The anchor-aware epsilon closure of `from`: the stop states reachable
/// through enabled epsilon edges.
pub open spec fn closure_set(a: AutoView, tags: Seq<Anchor>, from: Seq<bool>) -> Seq<bool> {
    Seq::new(
        a.states.len(),
        |j: int| eps_reachable(a, tags, from, j) && is_stop(a.states[j], tags),
    )
}

/// The consuming successor of `s` on character `c`, if any.
pub open spec fn char_dest(s: StateView, c: char) -> Option<int> {
    match s {
        StateView::Token { token, dest } => if token == c {
            Some(dest)
        } else {
            None
        },
        StateView::Lambda { lambda, dest } => if crate::state::spec_accepts(lambda, c) {
            Some(dest)
        } else {
            None
        },
        _ => None,
    }
}

/// One consuming step: the set of states reached by firing the consuming
/// transitions of `from` on `c`.
pub open spec fn step_set(a: AutoView, from: Seq<bool>, c: char) -> Seq<bool> {
    Seq::new(
        a.states.len(),
        |d: int|
            exists|j: int|
                0 <= j < from.len() && from[j] && #[trigger] char_dest(a.states[j], c) == Some(d),
    )
}

/// The anchor tags carried by the boundary before position `i` of `s`
/// (`i == s.len()` is the boundary after the last character).
pub open spec fn boundary_tags(s: Seq<char>, i: int) -> Seq<Anchor> {
    if 0 < i < s.len() {
        if crate::state::spec_is_word(s[i - 1]) != crate::state::spec_is_word(s[i]) {
            seq![Anchor::WordBoundary]
        } else {
            Seq::<Anchor>::empty()
        }
    } else {
        (if i == 0 {
            seq![Anchor::Start]
        } else {
            Seq::<Anchor>::empty()
        }) + (if i == s.len() {
            seq![Anchor::End]
        } else {
            Seq::<Anchor>::empty()
        }) + seq![Anchor::WordBoundary]
    }
}

/// One candidate match start tracked during simulation: the best match end
/// recorded so far, and the set of currently active states.
#[verifier::ext_equal]
pub struct FrontierView {
    pub best: Option<int>,
    pub states: Seq<bool>,
}

/// The active set holding exactly the start state.
pub open spec fn seed(a: AutoView) -> Seq<bool> {
    Seq::new(a.states.len(), |j: int| j == a.start)
}

/// Closes a frontier under epsilon edges and records `pos` as its match
/// end if the accept state became active.
pub open spec fn close_frontier(a: AutoView, tags: Seq<Anchor>, f: FrontierView, pos: int) -> FrontierView {
    let cl = closure_set(a, tags, f.states);
    FrontierView { best: if cl[a.accept] { Some(pos) } else { f.best }, states: cl }
}

/// The boundary event at `pos`: a fresh frontier is seeded with the start
/// state, then every frontier is epsilon-closed under the boundary's tags.
pub open spec fn boundary_step(
    a: AutoView,
    fs: Seq<FrontierView>,
    pos: int,
    tags: Seq<Anchor>,
) -> Seq<FrontierView> {
    (fs + seq![FrontierView { best: None, states: seed(a) }]).map_values(
        |f: FrontierView| close_frontier(a, tags, f, pos),
    )
}

/// The character event: every frontier fires its consuming transitions.
pub open spec fn char_step_frontiers(a: AutoView, fs: Seq<FrontierView>, c: char) -> Seq<FrontierView> {
    fs.map_values(|f: FrontierView| FrontierView { best: f.best, states: step_set(a, f.states, c) })
}

/// The frontiers after the events boundary 0, char 0, ..., char `pos - 1`,
/// boundary `pos` have been processed.
pub open spec fn sim_frontiers(a: AutoView, s: Seq<char>, pos: int) -> Seq<FrontierView>
    decreases pos,
{
    if pos <= 0 {
        boundary_step(a, Seq::<FrontierView>::empty(), 0, boundary_tags(s, 0))
    } else {
        boundary_step(
            a,
            char_step_frontiers(a, sim_frontiers(a, s, pos - 1), s[pos - 1]),
            pos,
            boundary_tags(s, pos),
        )
    }
}

/// The best match end recorded for each candidate start position after the
/// whole input has been processed.
pub open spec fn best_ends(a: AutoView, s: Seq<char>) -> Seq<Option<int>> {
    sim_frontiers(a, s, s.len() as int).map_values(|f: FrontierView| f.best)
}

// ---------------------------------------------------------------------------
// Result assembly: non-overlapping admission, greedy choice, full match.
// ---------------------------------------------------------------------------

/// A candidate interval `[l, r)` may be admitted after `prev` if it starts
/// at or after the last admitted end and makes strict forward progress.
pub open spec fn can_admit(prev: Seq<(int, int)>, l: int, r: int) -> bool {
    prev.len() == 0 || (prev.last().1 <= l && prev.last().1 < r)
}

/// The non-overlapping matches admitted from the first `k` candidate
/// starts, walked in start order.
pub open spec fn admitted_up_to(bests: Seq<Option<int>>, k: int) -> Seq<(int, int)>
    decreases k,
{
    if k <= 0 {
        Seq::<(int, int)>::empty()
    } else {
        let prev = admitted_up_to(bests, k - 1);
        match bests[k - 1] {
            Option::None => prev,
            Option::Some(r) => if can_admit(prev, k - 1, r) {
                prev.push((k - 1, r))
            } else {
                prev
            },
        }
    }
}

/// All admitted non-overlapping match intervals.
pub open spec fn admitted(bests: Seq<Option<int>>) -> Seq<(int, int)> {
    admitted_up_to(bests, bests.len() as int)
}

/// The substrings of `s` carved out by the intervals `ms`.
pub open spec fn match_strings(s: Seq<char>, ms: Seq<(int, int)>) -> Seq<Seq<char>> {
    ms.map_values(|m: (int, int)| s.subrange(m.0, m.1))
}

/// The first element of maximal length, if any.
pub open spec fn first_longest(ms: Seq<Seq<char>>) -> Option<Seq<char>>
    decreases ms.len(),
{
    if ms.len() == 0 {
        None
    } else {
        match first_longest(ms.drop_last()) {
            None => Some(ms.last()),
            Some(m) => if ms.last().len() > m.len() {
                Some(ms.last())
            } else {
                Some(m)
            },
        }
    }
}

/// What a global search over `a` on `s` returns.
pub open spec fn spec_global_search(a: AutoView, s: Seq<char>) -> Seq<Seq<char>> {
    match_strings(s, admitted(best_ends(a, s)))
}

/// What a greedy search over `a` on `s` returns: the first longest of the
/// global matches.
pub open spec fn spec_greedy_search(a: AutoView, s: Seq<char>) -> Option<Seq<char>> {
    first_longest(spec_global_search(a, s))
}

/// Whether `a` matches all of `s`: the greedy match covers the whole input.
pub open spec fn spec_full_match(a: AutoView, s: Seq<char>) -> bool {
    spec_greedy_search(a, s) matches Some(m) && m.len() == s.len()
}


// ---------------------------------------------------------------------------
// Lemmas about epsilon reachability, used to verify the closure algorithm.
// ---------------------------------------------------------------------------

/// Every enabled epsilon successor of a well-formed state is a valid index.
pub proof fn lemma_eps_dests_bounds(a: AutoView, tags: Seq<Anchor>, j: int)
    requires
        auto_wf(a),
        0 <= j < a.states.len(),
    ensures
        forall|t: int|
            0 <= t < eps_dests(a.states[j], tags).len() ==> 0 <= #[trigger] eps_dests(
                a.states[j],
                tags,
            )[t] < a.states.len(),
{
    assert(state_wf(a.states[j], a.states.len() as int));
}

/// A one-state path makes every active state reachable.
pub proof fn lemma_eps_reachable_base(a: AutoView, tags: Seq<Anchor>, from: Seq<bool>, j: int)
    requires
        0 <= j < a.states.len(),
        0 <= j < from.len(),
        from[j],
    ensures
        eps_reachable(a, tags, from, j),
{
    let p = seq![j];
    assert(is_eps_path(a, tags, p));
    assert(p.last() == j && from[p[0]]);
}

/// Reachability extends along one more enabled epsilon edge.
pub proof fn lemma_eps_reachable_step(a: AutoView, tags: Seq<Anchor>, from: Seq<bool>, j: int, d: int)
    requires
        auto_wf(a),
        0 <= j < a.states.len(),
        eps_reachable(a, tags, from, j),
        eps_dests(a.states[j], tags).contains(d),
    ensures
        eps_reachable(a, tags, from, d),
{
    let p = choose|p: Seq<int>|
        #[trigger] is_eps_path(a, tags, p) && 0 <= p[0] < from.len() && from[p[0]] && p.last() == j;
    let q = p.push(d);
    lemma_eps_dests_bounds(a, tags, j);
    let t = choose|t: int| 0 <= t < eps_dests(a.states[j], tags).len() && eps_dests(a.states[j], tags)[t] == d;
    assert(0 <= d < a.states.len());
    assert forall|k: int| 0 <= k < q.len() implies 0 <= #[trigger] q[k] < a.states.len() by {
        if k < p.len() {
            assert(q[k] == p[k]);
        }
    }
    assert forall|k: int| 0 <= k < q.len() - 1 implies #[trigger] eps_dests(a.states[q[k]], tags)
        .contains(q[k + 1]) by {
        if k < p.len() - 1 {
            assert(q[k] == p[k] && q[k + 1] == p[k + 1]);
        } else {
            assert(q[k] == p.last() && q[k + 1] == d);
        }
    }
    assert(is_eps_path(a, tags, q));
    assert(q[0] == p[0] && q.last() == d);
}

/// A set that contains the seed and is closed under enabled epsilon edges
/// contains the endpoint of every enabled epsilon path from the seed.
pub proof fn lemma_closed_contains_reachable(
    a: AutoView,
    tags: Seq<Anchor>,
    from: Seq<bool>,
    reach: Seq<bool>,
    p: Seq<int>,
)
    requires
        reach.len() == a.states.len(),
        from.len() == a.states.len(),
        forall|k: int| 0 <= k < from.len() && from[k] ==> #[trigger] reach[k],
        forall|k: int, t: int|
            0 <= k < reach.len() && reach[k] && 0 <= t < eps_dests(a.states[k], tags).len()
                ==> reach[#[trigger] eps_dests(a.states[k], tags)[t]],
        is_eps_path(a, tags, p),
        0 <= p[0] < from.len(),
        from[p[0]],
    ensures
        0 <= p.last() < reach.len(),
        reach[p.last()],
    decreases p.len(),
{
    if p.len() == 1 {
        assert(p.last() == p[0]);
    } else {
        let q = p.drop_last();
        assert forall|k: int| 0 <= k < q.len() - 1 implies #[trigger] eps_dests(
            a.states[q[k]],
            tags,
        ).contains(q[k + 1]) by {
            assert(q[k] == p[k] && q[k + 1] == p[k + 1]);
        }
        assert(is_eps_path(a, tags, q));
        assert(q[0] == p[0]);
        lemma_closed_contains_reachable(a, tags, from, reach, q);
        let j = q.last();
        assert(j == p[p.len() - 2]);
        assert(p.last() == p[p.len() - 1]);
        assert(eps_dests(a.states[p[p.len() - 2]], tags).contains(p[p.len() - 2 + 1]));
        assert(eps_dests(a.states[j], tags).contains(p.last()));
        let t = choose|t: int|
            0 <= t < eps_dests(a.states[j], tags).len() && eps_dests(a.states[j], tags)[t]
                == p.last();
        assert(reach[eps_dests(a.states[j], tags)[t]]);
    }
}

/// How many entries of `s` are true.
pub open spec fn count_true(s: Seq<bool>) -> int
    decreases s.len(),
{
    if s.len() == 0 {
        0
    } else {
        count_true(s.drop_last()) + if s.last() {
            1int
        } else {
            0int
        }
    }
}

/// The count of true entries is between 0 and the length.
pub proof fn lemma_count_true_le(s: Seq<bool>)
    ensures
        0 <= count_true(s) <= s.len(),
    decreases s.len(),
{
    if s.len() > 0 {
        lemma_count_true_le(s.drop_last());
    }
}

/// Setting a false entry to true increases the count by one.
pub proof fn lemma_count_true_update(s: Seq<bool>, j: int)
    requires
        0 <= j < s.len(),
        !s[j],
    ensures
        count_true(s.update(j, true)) == count_true(s) + 1,
    decreases s.len(),
{
    let su = s.update(j, true);
    if j == s.len() - 1 {
        assert(su.drop_last() =~= s.drop_last());
        assert(su.last() && !s.last());
    } else {
        assert(su.drop_last() =~= s.drop_last().update(j, true));
        assert(su.last() == s.last());
        lemma_count_true_update(s.drop_last(), j);
    }
}


/// Shape of the simulation state: after boundary `pos` there are `pos + 1`
/// frontiers, each of whose active sets ranges over the whole arena, and
/// the frontier started at `k` only ever records ends between `k` and `pos`.
pub proof fn lemma_sim_frontiers_shape(a: AutoView, s: Seq<char>, pos: int)
    requires
        0 <= pos,
    ensures
        sim_frontiers(a, s, pos).len() == pos + 1,
        forall|k: int|
            0 <= k <= pos ==> (#[trigger] sim_frontiers(a, s, pos)[k]).states.len()
                == a.states.len(),
        forall|k: int|
            0 <= k <= pos ==> ((#[trigger] sim_frontiers(a, s, pos)[k]).best matches Some(r)
                ==> k <= r <= pos),
    decreases pos,
{
    let fs = sim_frontiers(a, s, pos);
    if pos == 0 {
        let pushed = Seq::<FrontierView>::empty() + seq![
            FrontierView { best: None, states: seed(a) },
        ];
        assert(fs == pushed.map_values(|f: FrontierView| close_frontier(a, boundary_tags(s, 0), f, 0)));
        assert(fs.len() == 1);
        assert(fs[0] == close_frontier(a, boundary_tags(s, 0), pushed[0], 0));
    } else {
        let prev = sim_frontiers(a, s, pos - 1);
        lemma_sim_frontiers_shape(a, s, pos - 1);
        let cs = char_step_frontiers(a, prev, s[pos - 1]);
        assert(cs.len() == pos);
        let tags = boundary_tags(s, pos);
        let pushed = cs + seq![FrontierView { best: None, states: seed(a) }];
        assert(fs == pushed.map_values(|f: FrontierView| close_frontier(a, tags, f, pos)));
        assert(fs.len() == pos + 1);
        assert forall|k: int| 0 <= k <= pos implies (#[trigger] fs[k]).states.len()
            == a.states.len() by {
            assert(fs[k] == close_frontier(a, tags, pushed[k], pos));
        }
        assert forall|k: int|
            0 <= k <= pos && (#[trigger] fs[k]).best is Some implies k <= fs[k].best->0 <= pos by {
            assert(fs[k] == close_frontier(a, tags, pushed[k], pos));
            if fs[k].best != Some(pos as int) {
                assert(fs[k].best == pushed[k].best);
                if k < pos {
                    assert(pushed[k] == cs[k]);
                    assert(cs[k] == (FrontierView {
                        best: prev[k].best,
                        states: step_set(a, prev[k].states, s[pos - 1]),
                    }));
                } else {
                    assert(pushed[k].best is None);
                }
            }
        }
    }
}

/// The ends recorded for each start position lie between the start and the
/// input's length.
pub proof fn lemma_best_ends_bounds(a: AutoView, s: Seq<char>)
    ensures
        best_ends(a, s).len() == s.len() + 1,
        forall|k: int|
            0 <= k < best_ends(a, s).len() ==> (#[trigger] best_ends(a, s)[k] matches Some(r)
                ==> k <= r <= s.len()),
{
    lemma_sim_frontiers_shape(a, s, s.len() as int);
    let fs = sim_frontiers(a, s, s.len() as int);
    assert forall|k: int|
        0 <= k < best_ends(a, s).len() && #[trigger] best_ends(a, s)[k] is Some implies k
        <= best_ends(a, s)[k]->0 <= s.len() by {
        assert(best_ends(a, s)[k] == fs[k].best);
    }
}

/// Every admitted interval comes from the recorded ends: it lies inside
/// `[0, N]` when the ends do.
pub proof fn lemma_admitted_bounds(bests: Seq<Option<int>>, lim: int, k: int)
    requires
        0 <= k <= bests.len(),
        forall|i: int| 0 <= i < bests.len() ==> (#[trigger] bests[i] matches Some(r) ==> i <= r <= lim),
        bests.len() <= lim + 1,
    ensures
        forall|i: int|
            0 <= i < admitted_up_to(bests, k).len() ==> {
                let m = #[trigger] admitted_up_to(bests, k)[i];
                0 <= m.0 <= m.1 <= lim && m.0 < k
            },
    decreases k,
{
    if k > 0 {
        lemma_admitted_bounds(bests, lim, k - 1);
        let prev = admitted_up_to(bests, k - 1);
        let cur = admitted_up_to(bests, k);
        match bests[k - 1] {
            Option::None => {}
            Option::Some(r) => {
                if can_admit(prev, k - 1, r) {
                    assert(cur == prev.push((k - 1, r)));
                    assert(bests[k - 1] == Some(r));
                    assert(k - 1 <= r <= lim);
                }
            }
        }
    }
}

} // verus!
