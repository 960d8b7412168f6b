use vstd::prelude::*;

use crate::semantics::{
    auto_wf, boundary_tags, closure_set, closure_spec, concat_spec, count_true, eps_dests,
    admitted, admitted_up_to, best_ends, boundary_step, can_admit, char_dest,
    char_step_frontiers, close_frontier, eps_reachable, first_longest,
    lemma_admitted_bounds, lemma_best_ends_bounds, match_strings, spec_full_match,
    spec_global_search, spec_greedy_search,
    from_anchor_spec, is_eps_path, from_lambda_spec, from_token_spec, is_stop, seed,
    sim_frontiers, step_set, FrontierView,
    lemma_closed_contains_reachable, lemma_closure_spec_wf, lemma_concat_spec_wf,
    lemma_count_true_le, lemma_count_true_update, lemma_eps_reachable_base,
    lemma_eps_reachable_step, lemma_optional_spec_wf, lemma_or_spec_wf, lemma_plus_spec_wf,
    optional_spec, or_spec, patch, plus_spec, shift_state, shift_states, state_views, state_wf,
    AutoView, StateView,
};
use crate::state::{is_word_char, Anchor, Lambda, StateNode};

verus! {

/// A Thompson-style non-deterministic finite automaton. The states live in
/// an arena (`states`); edges are indices into it. One designated start
/// state and one designated accept state; the accept state is always a
/// `Trivial` state without outgoing edges.
pub struct Automata {
    states: Vec<StateNode>,
    start: usize,
    accept: usize,
}

impl View for Automata {
    type V = AutoView;

    closed spec fn view(&self) -> AutoView {
        AutoView {
            states: state_views(self.states@),
            start: self.start as int,
            accept: self.accept as int,
        }
    }
}

/// A copy of a vector of edge indices.
fn copy_indices(v: &Vec<usize>) -> (r: Vec<usize>)
    ensures
        r@ == v@,
{
    let mut r: Vec<usize> = Vec::new();
    let mut i: usize = 0;
    while i < v.len()
        invariant
            i <= v@.len(),
            r@ == v@.subrange(0, i as int),
        decreases v@.len() - i,
    {
        r.push(v[i]);
        assert(r@ =~= v@.subrange(0, i + 1));
        i += 1;
    }
    assert(r@ =~= v@);
    r
}

/// A copy of `st` with every edge moved up by `off`.
fn shift_node(st: &StateNode, off: usize, bound: usize) -> (r: StateNode)
    requires
        state_wf(st@, bound as int),
        off + bound <= usize::MAX,
    ensures
        r@ == shift_state(st@, off as int),
{
    let r = match st {
        StateNode::Trivial { dests } => {
            let mut nd: Vec<usize> = Vec::new();
            let mut i: usize = 0;
            while i < dests.len()
                invariant
                    i <= dests@.len(),
                    state_wf(st@, bound as int),
                    st@ == (StateView::Trivial {
                        dests: Seq::new(dests@.len(), |k: int| dests@[k] as int),
                    }),
                    off + bound <= usize::MAX,
                    nd@.len() == i,
                    forall|k: int| 0 <= k < i ==> #[trigger] nd@[k] == dests@[k] + off,
                decreases dests@.len() - i,
            {
                let d = dests[i];
                assert(st@->Trivial_dests[i as int] == d as int);
                nd.push(d + off);
                i += 1;
            }
            StateNode::Trivial { dests: nd }
        }
        StateNode::Token { token, dest } => StateNode::Token { token: *token, dest: *dest + off },
        StateNode::Lambda { lambda, dest } => StateNode::Lambda {
            lambda: *lambda,
            dest: *dest + off,
        },
        StateNode::Anchor { anchor, dest } => StateNode::Anchor {
            anchor: *anchor,
            dest: *dest + off,
        },
    };
    proof {
        assert(r@ =~~= shift_state(st@, off as int));
    }
    r
}

/// Appends `src`'s states to `dst`, with every edge of `src` moved up by
/// `dst`'s old length, so that the appended states keep pointing at each
/// other inside the combined arena.
fn append_shifted(dst: &mut Vec<StateNode>, src: Vec<StateNode>)
    requires
        forall|i: int| 0 <= i < src@.len() ==> state_wf(#[trigger] src@[i]@, src@.len() as int),
    ensures
        final(dst)@.len() == old(dst)@.len() + src@.len(),
        state_views(final(dst)@) == state_views(old(dst)@) + shift_states(
            state_views(src@),
            old(dst)@.len() as int,
        ),
{
    let off = dst.len();
    let ghost src0 = src@;
    let mut src = src;
    // Move the states over unchanged first; the combined vector's length
    // then bounds the shifted indices, so the shift cannot overflow.
    while src.len() > 0
        invariant
            src0.subrange(src0.len() - src@.len(), src0.len() as int) == src@,
            src@.len() <= src0.len(),
            dst@ == old(dst)@ + src0.subrange(0, src0.len() - src@.len()),
        decreases src@.len(),
    {
        let st = src.remove(0);
        dst.push(st);
        proof {
            assert(src0.subrange(src0.len() - (src@.len() + 1), src0.len() as int).drop_first()
                =~= src0.subrange(src0.len() - src@.len(), src0.len() as int));
            assert(dst@ =~= old(dst)@ + src0.subrange(0, src0.len() - src@.len()));
        }
    }
    proof {
        assert(src0.subrange(0, src0.len() as int) =~= src0);
        assert(dst@ =~= old(dst)@ + src0);
    }
    // Now rewrite the edges of the appended states in place.
    let n = dst.len();
    let mut i = off;
    while i < n
        invariant
            off <= i <= n,
            n == dst@.len(),
            n == off + src0.len(),
            forall|k: int| 0 <= k < src0.len() ==> state_wf(#[trigger] src0[k]@, src0.len() as int),
            forall|k: int| 0 <= k < off ==> #[trigger] dst@[k] == old(dst)@[k],
            forall|k: int| i <= k < n ==> #[trigger] dst@[k] == src0[k - off],
            forall|k: int|
                off <= k < i ==> #[trigger] dst@[k]@ == shift_state(src0[k - off]@, off as int),
        decreases n - i,
    {
        let shifted = shift_node(&dst[i], off, n - off);
        dst.set(i, shifted);
        i += 1;
    }
    proof {
        assert(state_views(dst@) =~~= state_views(old(dst)@) + shift_states(
            state_views(src0),
            off as int,
        ));
    }
}

/// Appends the epsilon edge `i -> d` to the `Trivial` state at index `i`.
fn push_edge(states: &mut Vec<StateNode>, i: usize, d: usize)
    requires
        i < old(states)@.len(),
        old(states)@[i as int]@ is Trivial,
    ensures
        final(states)@.len() == old(states)@.len(),
        state_views(final(states)@) == patch(
            state_views(old(states)@),
            i as int,
            seq![d as int],
        ),
{
    let nd: Vec<usize> = if let StateNode::Trivial { dests } = &states[i] {
        let mut c = copy_indices(dests);
        c.push(d);
        c
    } else {
        proof {
            assert(false);
        }
        Vec::new()
    };
    states.set(i, StateNode::Trivial { dests: nd });
    proof {
        assert(state_views(states@) =~~= patch(
            state_views(old(states)@),
            i as int,
            seq![d as int],
        ));
    }
}

/// Transfers well-formedness facts from an automaton view to the concrete
/// state vector it was read from.
proof fn lemma_wf_transfer(ss: Seq<StateNode>, av: AutoView)
    requires
        av.states == state_views(ss),
        auto_wf(av),
    ensures
        av.states.len() == ss.len(),
        forall|i: int| 0 <= i < ss.len() ==> state_wf(#[trigger] ss[i]@, ss.len() as int),
        0 <= av.start < ss.len(),
        0 <= av.accept < ss.len(),
        ss[av.accept]@ is Trivial,
{
    assert forall|i: int| 0 <= i < ss.len() implies state_wf(#[trigger] ss[i]@, ss.len() as int) by {
        assert(av.states[i] == ss[i]@);
    }
    assert(av.states[av.accept] == ss[av.accept]@);
}

impl Automata {
    #[verifier::type_invariant]
    closed spec fn inv(self) -> bool {
        auto_wf(self@)
    }

    /// An automaton matching exactly the one-character string `token`.
    pub fn from_token(token: char) -> (r: Automata)
        ensures
            r@ == from_token_spec(token),
    {
        let mut states: Vec<StateNode> = Vec::new();
        states.push(StateNode::Token { token, dest: 1 });
        states.push(StateNode::Trivial { dests: Vec::new() });
        proof {
            assert(state_views(states@) =~~= from_token_spec(token).states);
            assert(auto_wf(AutoView { states: state_views(states@), start: 0, accept: 1 }));
        }
        let r = Automata { states, start: 0, accept: 1 };
        proof {
            assert(r@ =~~= from_token_spec(token));
        }
        r
    }

    /// An automaton matching exactly the one-character strings whose
    /// character satisfies `lambda`.
    pub fn from_lambda(lambda: Lambda) -> (r: Automata)
        ensures
            r@ == from_lambda_spec(lambda),
    {
        let mut states: Vec<StateNode> = Vec::new();
        states.push(StateNode::Lambda { lambda, dest: 1 });
        states.push(StateNode::Trivial { dests: Vec::new() });
        proof {
            assert(state_views(states@) =~~= from_lambda_spec(lambda).states);
            assert(auto_wf(AutoView { states: state_views(states@), start: 0, accept: 1 }));
        }
        let r = Automata { states, start: 0, accept: 1 };
        proof {
            assert(r@ =~~= from_lambda_spec(lambda));
        }
        r
    }

    /// An automaton matching exactly the one-character strings whose
    /// character satisfies `lambda`, taking the predicate by value as a
    /// closure-style argument; with predicates held as plain data this is
    /// the same construction as [`Automata::from_lambda`].
    pub fn from_closure(lambda: Lambda) -> (r: Automata)
        ensures
            r@ == from_lambda_spec(lambda),
    {
        Automata::from_lambda(lambda)
    }

    /// An automaton matching the empty string exactly at positions carrying
    /// the tag `anchor`.
    pub fn from_anchor(anchor: Anchor) -> (r: Automata)
        ensures
            r@ == from_anchor_spec(anchor),
    {
        let mut states: Vec<StateNode> = Vec::new();
        states.push(StateNode::Anchor { anchor, dest: 1 });
        states.push(StateNode::Trivial { dests: Vec::new() });
        proof {
            assert(state_views(states@) =~~= from_anchor_spec(anchor).states);
            assert(auto_wf(AutoView { states: state_views(states@), start: 0, accept: 1 }));
        }
        let r = Automata { states, start: 0, accept: 1 };
        proof {
            assert(r@ =~~= from_anchor_spec(anchor));
        }
        r
    }

    /// The concatenation of `self` and `other`.
    pub fn concat(self, other: Automata) -> (r: Automata)
        ensures
            r@ == concat_spec(self@, other@),
    {
        proof {
            use_type_invariant(&self);
            use_type_invariant(&other);
        }
        let ghost av = self@;
        let ghost bv = other@;
        let Automata { states: mut states, start, accept } = self;
        let Automata { states: ostates, start: ostart, accept: oaccept } = other;
        proof {
            lemma_wf_transfer(states@, av);
            lemma_wf_transfer(ostates@, bv);
        }
        let off = states.len();
        let olen = ostates.len();
        append_shifted(&mut states, ostates);
        let total = states.len();
        let ghost cv = concat_spec(av, bv);
        proof {
            assert(total == off + olen);
            assert(state_views(states@) == av.states + shift_states(bv.states, off as int));
            assert(ostart < olen && oaccept < olen);
            assert(state_views(states@)[accept as int] == av.states[av.accept]);
            assert(states@[accept as int]@ is Trivial);
        }
        push_edge(&mut states, accept, ostart + off);
        proof {
            lemma_concat_spec_wf(av, bv);
            assert(state_views(states@) =~~= cv.states);
            assert(auto_wf(AutoView {
                states: state_views(states@),
                start: start as int,
                accept: (oaccept + off) as int,
            }));
        }
        let r = Automata { states, start, accept: oaccept + off };
        proof {
            assert(r@ =~~= cv);
        }
        r
    }

    /// The alternation of `self` and `other`.
    pub fn or(self, other: Automata) -> (r: Automata)
        ensures
            r@ == or_spec(self@, other@),
    {
        proof {
            use_type_invariant(&self);
            use_type_invariant(&other);
        }
        let ghost av = self@;
        let ghost bv = other@;
        let Automata { states: mut states, start, accept } = self;
        let Automata { states: ostates, start: ostart, accept: oaccept } = other;
        proof {
            lemma_wf_transfer(states@, av);
            lemma_wf_transfer(ostates@, bv);
        }
        let off = states.len();
        let olen = ostates.len();
        append_shifted(&mut states, ostates);
        let total = states.len();
        proof {
            assert(total == off + olen);
            assert(state_views(states@) == av.states + shift_states(bv.states, off as int));
            assert(ostart < olen && oaccept < olen);
        }
        let ghost merged = states@;
        let mut start_dests: Vec<usize> = Vec::new();
        start_dests.push(start);
        start_dests.push(ostart + off);
        states.push(StateNode::Trivial { dests: start_dests });
        states.push(StateNode::Trivial { dests: Vec::new() });
        let new_start = states.len() - 2;
        let new_accept = states.len() - 1;
        let ghost cv = or_spec(av, bv);
        proof {
            assert(new_start == total && new_accept == total + 1);
            assert(states@[accept as int] == merged[accept as int]);
            assert(states@[accept as int]@ is Trivial);
            assert(states@[(oaccept + off) as int] == merged[(oaccept + off) as int]);
            assert(state_views(merged)[(oaccept + off) as int] == shift_state(
                bv.states[bv.accept],
                off as int,
            ));
            assert(states@[(oaccept + off) as int]@ is Trivial);
        }
        push_edge(&mut states, accept, new_accept);
        proof {
            assert(state_views(states@)[(oaccept + off) as int] == states@[(oaccept + off) as int]@);
            assert(states@[(oaccept + off) as int]@ is Trivial);
        }
        push_edge(&mut states, oaccept + off, new_accept);
        proof {
            lemma_or_spec_wf(av, bv);
            assert(state_views(states@) =~~= cv.states);
            assert(auto_wf(AutoView {
                states: state_views(states@),
                start: new_start as int,
                accept: new_accept as int,
            }));
        }
        let r = Automata { states, start: new_start, accept: new_accept };
        proof {
            assert(r@ =~~= cv);
        }
        r
    }

    /// Zero or more traversals of `self`.
    pub fn closure(self) -> (r: Automata)
        ensures
            r@ == closure_spec(self@),
    {
        proof {
            use_type_invariant(&self);
        }
        let ghost av = self@;
        let Automata { states: mut states, start, accept } = self;
        proof {
            lemma_wf_transfer(states@, av);
        }
        let ghost merged = states@;
        let mut start_dests: Vec<usize> = Vec::new();
        start_dests.push(start);
        states.push(StateNode::Trivial { dests: start_dests });
        states.push(StateNode::Trivial { dests: Vec::new() });
        let new_start = states.len() - 2;
        let new_accept = states.len() - 1;
        let ghost cv = closure_spec(av);
        proof {
            assert(states@[accept as int] == merged[accept as int]);
            assert(states@[accept as int]@ is Trivial);
            assert(states@[new_start as int]@ is Trivial);
        }
        push_edge(&mut states, new_start, new_accept);
        proof {
            assert(state_views(states@)[accept as int] == states@[accept as int]@);
            assert(states@[accept as int]@ is Trivial);
        }
        push_edge(&mut states, accept, start);
        proof {
            assert(state_views(states@)[accept as int] == states@[accept as int]@);
            assert(states@[accept as int]@ is Trivial);
        }
        push_edge(&mut states, accept, new_accept);
        proof {
            lemma_closure_spec_wf(av);
            assert(state_views(states@) =~~= cv.states);
            assert(auto_wf(AutoView {
                states: state_views(states@),
                start: new_start as int,
                accept: new_accept as int,
            }));
        }
        let r = Automata { states, start: new_start, accept: new_accept };
        proof {
            assert(r@ =~~= cv);
        }
        r
    }

    /// Zero or one traversal of `self`.
    pub fn optional(self) -> (r: Automata)
        ensures
            r@ == optional_spec(self@),
    {
        proof {
            use_type_invariant(&self);
        }
        let ghost av = self@;
        let Automata { states: mut states, start, accept } = self;
        proof {
            lemma_wf_transfer(states@, av);
        }
        let ghost merged = states@;
        let mut start_dests: Vec<usize> = Vec::new();
        start_dests.push(start);
        states.push(StateNode::Trivial { dests: start_dests });
        states.push(StateNode::Trivial { dests: Vec::new() });
        let new_start = states.len() - 2;
        let new_accept = states.len() - 1;
        let ghost cv = optional_spec(av);
        proof {
            assert(states@[accept as int] == merged[accept as int]);
            assert(states@[accept as int]@ is Trivial);
            assert(states@[new_start as int]@ is Trivial);
        }
        push_edge(&mut states, new_start, new_accept);
        proof {
            assert(state_views(states@)[accept as int] == states@[accept as int]@);
            assert(states@[accept as int]@ is Trivial);
        }
        push_edge(&mut states, accept, new_accept);
        proof {
            lemma_optional_spec_wf(av);
            assert(state_views(states@) =~~= cv.states);
            assert(auto_wf(AutoView {
                states: state_views(states@),
                start: new_start as int,
                accept: new_accept as int,
            }));
        }
        let r = Automata { states, start: new_start, accept: new_accept };
        proof {
            assert(r@ =~~= cv);
        }
        r
    }

    /// One or more traversals of `self`.
    pub fn plus(self) -> (r: Automata)
        ensures
            r@ == plus_spec(self@),
    {
        proof {
            use_type_invariant(&self);
        }
        let ghost av = self@;
        let Automata { states: mut states, start, accept } = self;
        proof {
            lemma_wf_transfer(states@, av);
        }
        let ghost merged = states@;
        let mut start_dests: Vec<usize> = Vec::new();
        start_dests.push(start);
        states.push(StateNode::Trivial { dests: start_dests });
        states.push(StateNode::Trivial { dests: Vec::new() });
        let new_start = states.len() - 2;
        let new_accept = states.len() - 1;
        let ghost cv = plus_spec(av);
        proof {
            assert(states@[accept as int] == merged[accept as int]);
            assert(states@[accept as int]@ is Trivial);
        }
        push_edge(&mut states, accept, start);
        proof {
            assert(state_views(states@)[accept as int] == states@[accept as int]@);
            assert(states@[accept as int]@ is Trivial);
        }
        push_edge(&mut states, accept, new_accept);
        proof {
            lemma_plus_spec_wf(av);
            assert(state_views(states@) =~~= cv.states);
            assert(auto_wf(AutoView {
                states: state_views(states@),
                start: new_start as int,
                accept: new_accept as int,
            }));
        }
        let r = Automata { states, start: new_start, accept: new_accept };
        proof {
            assert(r@ =~~= cv);
        }
        r
    }
}


/// Whether `k` occurs in the worklist `st`.
pub(crate) open spec fn in_list(st: Seq<usize>, k: int) -> bool {
    exists|t: int| 0 <= t < st.len() && #[trigger] st[t] == k
}

/// Whether the tag list `v` carries the anchor `a`.
fn anchors_contain(v: &Vec<Anchor>, a: Anchor) -> (r: bool)
    ensures
        r == v@.contains(a),
{
    let mut i: usize = 0;
    while i < v.len()
        invariant
            i <= v@.len(),
            forall|k: int| 0 <= k < i ==> v@[k] != a,
        decreases v@.len() - i,
    {
        if v[i] == a {
            return true;
        }
        i += 1;
    }
    false
}

/// The anchor tags carried by the boundary before position `i` of `s`.
pub(crate) fn get_anchors(s: &Vec<char>, i: usize) -> (r: Vec<Anchor>)
    requires
        i <= s@.len(),
    ensures
        r@ == boundary_tags(s@, i as int),
{
    let mut r: Vec<Anchor> = Vec::new();
    if 0 < i && i < s.len() {
        if is_word_char(s[i - 1]) != is_word_char(s[i]) {
            r.push(Anchor::WordBoundary);
        }
    } else {
        if i == 0 {
            r.push(Anchor::Start);
        }
        if i == s.len() {
            r.push(Anchor::End);
        }
        r.push(Anchor::WordBoundary);
    }
    proof {
        assert(r@ =~= boundary_tags(s@, i as int));
    }
    r
}

/// Whether epsilon expansion stops at `st` under the tags `anchors`.
fn stop_state(st: &StateNode, anchors: &Vec<Anchor>) -> (r: bool)
    ensures
        r == is_stop(st@, anchors@),
{
    match st {
        StateNode::Trivial { dests } => dests.len() == 0,
        StateNode::Anchor { anchor, dest } => !anchors_contain(anchors, *anchor),
        _ => true,
    }
}

impl Automata {
    /// The anchor-aware epsilon closure of `from`: classic worklist search,
    /// returning the set of reachable states where expansion stops.
    fn exhaust_epsilons(&self, from: &Vec<bool>, anchors: &Vec<Anchor>) -> (r: Vec<bool>)
        requires
            from@.len() == self@.states.len(),
        ensures
            r@ == closure_set(self@, anchors@, from@),
    {
        proof {
            use_type_invariant(self);
        }
        let ghost av = self@;
        let ghost tags = anchors@;
        let n = self.states.len();
        proof {
            assert(av.states.len() == n);
        }
        let mut reach: Vec<bool> = Vec::new();
        while reach.len() < n
            invariant
                reach@.len() <= n,
                forall|k: int| 0 <= k < reach@.len() ==> !(#[trigger] reach@[k]),
            decreases n - reach@.len(),
        {
            reach.push(false);
        }
        let mut stack: Vec<usize> = Vec::new();
        let mut j: usize = 0;
        while j < n
            invariant
                n == av.states.len(),
                av == self@,
                tags == anchors@,
                auto_wf(av),
                from@.len() == n,
                reach@.len() == n,
                j <= n,
                forall|k: int| 0 <= k < j ==> (from@[k] ==> #[trigger] reach@[k]),
                forall|k: int|
                    0 <= k < n ==> (#[trigger] reach@[k] ==> eps_reachable(av, tags, from@, k)),
                forall|t: int|
                    0 <= t < stack@.len() ==> 0 <= #[trigger] stack@[t] < n && reach@[stack@[t] as int],
                forall|k: int| 0 <= k < n && #[trigger] reach@[k] ==> in_list(stack@, k),
            decreases n - j,
        {
            if from[j] {
                if !reach[j] {
                    let ghost stack_pre = stack@;
                    reach.set(j, true);
                    stack.push(j);
                    proof {
                        lemma_eps_reachable_base(av, tags, from@, j as int);
                        assert(stack@[stack@.len() - 1] == j);
                        assert(in_list(stack@, j as int));
                        assert forall|k: int| 0 <= k < n && #[trigger] reach@[k] implies in_list(
                            stack@,
                            k,
                        ) by {
                            if k != j {
                                let t = choose|t: int|
                                    0 <= t < stack_pre.len() && #[trigger] stack_pre[t] == k;
                                assert(stack@[t] == k);
                            }
                        }
                    }
                }
            }
            j += 1;
        }
        // Worklist: take one marked state and mark its enabled epsilon
        // successors; every marked state is eventually taken, so at the end
        // the marked set is closed under enabled epsilon edges.
        while stack.len() > 0
            invariant
                n == av.states.len(),
                av == self@,
                tags == anchors@,
                auto_wf(av),
                from@.len() == n,
                reach@.len() == n,
                forall|k: int| 0 <= k < n ==> (from@[k] ==> #[trigger] reach@[k]),
                forall|k: int|
                    0 <= k < n ==> (#[trigger] reach@[k] ==> eps_reachable(av, tags, from@, k)),
                forall|t: int|
                    0 <= t < stack@.len() ==> 0 <= #[trigger] stack@[t] < n && reach@[stack@[t] as int],
                forall|k: int, t: int|
                    0 <= k < n && #[trigger] reach@[k] && !in_list(stack@, k) && 0 <= t < eps_dests(
                        av.states[k],
                        tags,
                    ).len() ==> reach@[#[trigger] eps_dests(av.states[k], tags)[t]],
            decreases n - count_true(reach@), stack@.len(),
        {
            proof {
                lemma_count_true_le(reach@);
            }
            let ghost count0 = count_true(reach@);
            let ghost stack0 = stack@;
            let j = stack.pop().unwrap();
            proof {
                assert(stack0[stack0.len() - 1] == j);
                assert(reach@[j as int]);
                assert(state_wf(av.states[j as int], n as int));
                // Any state besides `j` that was on the worklist still is.
                assert forall|k: int| 0 <= k < n && in_list(stack0, k) && k != j implies in_list(
                    stack@,
                    k,
                ) by {
                    let t = choose|t: int| 0 <= t < stack0.len() && #[trigger] stack0[t] == k;
                    assert(t < stack0.len() - 1);
                    assert(stack@[t] == k);
                }
            }
            match &self.states[j] {
                StateNode::Trivial { dests } => {
                    let ghost ds = eps_dests(av.states[j as int], tags);
                    proof {
                        assert(av.states[j as int] == self.states@[j as int]@);
                        assert(ds.len() == dests@.len());
                        assert(forall|u: int| 0 <= u < ds.len() ==> #[trigger] ds[u] == dests@[u] as int);
                    }
                    let mut t: usize = 0;
                    while t < dests.len()
                        invariant
                            n == av.states.len(),
                            av == self@,
                            tags == anchors@,
                            auto_wf(av),
                            from@.len() == n,
                            reach@.len() == n,
                            0 <= (j as int) < n,
                            reach@[j as int],
                            ds == eps_dests(av.states[j as int], tags),
                            ds.len() == dests@.len(),
                            forall|u: int| 0 <= u < ds.len() ==> #[trigger] ds[u] == dests@[u] as int,
                            state_wf(av.states[j as int], n as int),
                            t <= dests@.len(),
                            forall|k: int| 0 <= k < n ==> (from@[k] ==> #[trigger] reach@[k]),
                            forall|k: int|
                                0 <= k < n ==> (#[trigger] reach@[k] ==> eps_reachable(
                                    av,
                                    tags,
                                    from@,
                                    k,
                                )),
                            forall|u: int|
                                0 <= u < stack@.len() ==> 0 <= #[trigger] stack@[u] < n
                                    && reach@[stack@[u] as int],
                            forall|k: int, u: int|
                                0 <= k < n && #[trigger] reach@[k] && k != j && !in_list(stack@, k)
                                    && 0 <= u < eps_dests(av.states[k], tags).len()
                                    ==> reach@[#[trigger] eps_dests(av.states[k], tags)[u]],
                            forall|u: int| 0 <= u < t ==> reach@[#[trigger] ds[u]],
                            count0 <= count_true(reach@) <= n,
                            count_true(reach@) - count0 == stack@.len() - (stack0.len() - 1),
                        decreases dests@.len() - t,
                    {
                        let d = dests[t];
                        proof {
                            assert(ds[t as int] == d as int);
                            assert(ds.contains(d as int));
                            assert(0 <= d < n);
                        }
                        if !reach[d] {
                            let ghost reach_pre = reach@;
                            let ghost stack_pre = stack@;
                            reach.set(d, true);
                            stack.push(d);
                            proof {
                                lemma_eps_reachable_step(av, tags, from@, j as int, d as int);
                                lemma_count_true_update(reach_pre, d as int);
                                lemma_count_true_le(reach@);
                                assert(stack@[stack@.len() - 1] == d);
                                assert forall|k: int, u: int|
                                    0 <= k < n && #[trigger] reach@[k] && k != j && !in_list(
                                        stack@,
                                        k,
                                    ) && 0 <= u < eps_dests(av.states[k], tags).len() implies reach@[#[trigger] eps_dests(
                                    av.states[k],
                                    tags,
                                )[u]] by {
                                    if k == d {
                                        assert(in_list(stack@, k));
                                    } else {
                                        assert(reach_pre[k]);
                                        assert(!in_list(stack_pre, k)) by {
                                            if in_list(stack_pre, k) {
                                                let w = choose|w: int|
                                                    0 <= w < stack_pre.len() && #[trigger] stack_pre[w]
                                                        == k;
                                                assert(stack@[w] == k);
                                            }
                                        }
                                        assert(reach_pre[eps_dests(av.states[k], tags)[u]]);
                                    }
                                }
                            }
                        }
                        t += 1;
                    }
                    proof {
                        assert forall|k: int, u: int|
                            0 <= k < n && #[trigger] reach@[k] && !in_list(stack@, k) && 0 <= u
                                < eps_dests(av.states[k], tags).len() implies reach@[#[trigger] eps_dests(
                            av.states[k],
                            tags,
                        )[u]] by {
                            if k == j {
                                assert(reach@[ds[u]]);
                            }
                        }
                        if count_true(reach@) == count0 {
                            assert(stack@.len() == stack0.len() - 1);
                        }
                        lemma_count_true_le(reach@);
                    }
                }
                StateNode::Anchor { anchor, dest } => {
                    let ghost ds = eps_dests(av.states[j as int], tags);
                    proof {
                        assert(av.states[j as int] == self.states@[j as int]@);
                        assert(self.states@[j as int]@ == (StateView::Anchor {
                            anchor: *anchor,
                            dest: *dest as int,
                        }));
                    }
                    let enabled = anchors_contain(anchors, *anchor);
                    if enabled {
                        let d = *dest;
                        proof {
                            assert(tags.contains(*anchor));
                            assert(av.states[j as int] == (StateView::Anchor {
                                anchor: *anchor,
                                dest: *dest as int,
                            }));
                            assert(ds == eps_dests(
                                StateView::Anchor { anchor: *anchor, dest: *dest as int },
                                tags,
                            ));
                            assert(ds == seq![*dest as int]);
                            assert(ds =~= seq![d as int]);
                            assert(ds[0] == d as int);
                            assert(ds.contains(d as int));
                            assert(0 <= d < n);
                        }
                        if !reach[d] {
                            let ghost reach_pre = reach@;
                            let ghost stack_pre = stack@;
                            reach.set(d, true);
                            stack.push(d);
                            proof {
                                lemma_eps_reachable_step(av, tags, from@, j as int, d as int);
                                lemma_count_true_update(reach_pre, d as int);
                                assert(stack@[stack@.len() - 1] == d);
                                assert forall|k: int, u: int|
                                    0 <= k < n && #[trigger] reach@[k] && !in_list(stack@, k) && 0
                                        <= u < eps_dests(av.states[k], tags).len() implies reach@[#[trigger] eps_dests(
                                    av.states[k],
                                    tags,
                                )[u]] by {
                                    if k == d {
                                        assert(in_list(stack@, k));
                                    } else if k == j {
                                        assert(ds[u] == d as int);
                                    } else {
                                        assert(reach_pre[k]);
                                        assert(!in_list(stack_pre, k)) by {
                                            if in_list(stack_pre, k) {
                                                let w = choose|w: int|
                                                    0 <= w < stack_pre.len() && #[trigger] stack_pre[w]
                                                        == k;
                                                assert(stack@[w] == k);
                                            }
                                        }
                                        assert(reach_pre[eps_dests(av.states[k], tags)[u]]);
                                    }
                                }
                                lemma_count_true_le(reach@);
                            }
                        } else {
                            proof {
                                assert forall|k: int, u: int|
                                    0 <= k < n && #[trigger] reach@[k] && !in_list(stack@, k) && 0
                                        <= u < eps_dests(av.states[k], tags).len() implies reach@[#[trigger] eps_dests(
                                    av.states[k],
                                    tags,
                                )[u]] by {
                                    if k == j {
                                        assert(ds[u] == d as int);
                                    }
                                }
                            }
                        }
                    } else {
                        proof {
                            assert(ds.len() == 0);
                            assert forall|k: int, u: int|
                                0 <= k < n && #[trigger] reach@[k] && !in_list(stack@, k) && 0 <= u
                                    < eps_dests(av.states[k], tags).len() implies reach@[#[trigger] eps_dests(
                                av.states[k],
                                tags,
                            )[u]] by {}
                        }
                    }
                }
                _ => {
                    proof {
                        let ghost ds = eps_dests(av.states[j as int], tags);
                        assert(av.states[j as int] == self.states@[j as int]@);
                        assert(ds.len() == 0);
                        assert forall|k: int, u: int|
                            0 <= k < n && #[trigger] reach@[k] && !in_list(stack@, k) && 0 <= u
                                < eps_dests(av.states[k], tags).len() implies reach@[#[trigger] eps_dests(
                            av.states[k],
                            tags,
                        )[u]] by {}
                    }
                }
            }
        }
        // The marked set now contains the seed and is closed, so it is
        // exactly the set of epsilon-reachable states.
        let mut out: Vec<bool> = Vec::new();
        let mut k: usize = 0;
        while k < n
            invariant
                n == av.states.len(),
                av == self@,
                auto_wf(av),
                tags == anchors@,
                from@.len() == n,
                reach@.len() == n,
                k <= n,
                out@.len() == k,
                forall|i: int| 0 <= i < n ==> (from@[i] ==> #[trigger] reach@[i]),
                forall|i: int|
                    0 <= i < n ==> (#[trigger] reach@[i] ==> eps_reachable(av, tags, from@, i)),
                forall|i: int, t: int|
                    0 <= i < n && #[trigger] reach@[i] && 0 <= t < eps_dests(av.states[i], tags).len()
                        ==> reach@[#[trigger] eps_dests(av.states[i], tags)[t]],
                forall|i: int|
                    0 <= i < k ==> #[trigger] out@[i] == (eps_reachable(av, tags, from@, i)
                        && is_stop(av.states[i], tags)),
            decreases n - k,
        {
            let active = reach[k];
            let stop = stop_state(&self.states[k], anchors);
            proof {
                assert(av.states[k as int] == self.states@[k as int]@);
                if !active && eps_reachable(av, tags, from@, k as int) {
                    let p = choose|p: Seq<int>|
                        #[trigger] is_eps_path(av, tags, p) && 0 <= p[0] < from@.len()
                            && from@[p[0]] && p.last() == k as int;
                    lemma_closed_contains_reachable(av, tags, from@, reach@, p);
                }
            }
            out.push(active && stop);
            k += 1;
        }
        proof {
            assert(out@ =~= closure_set(av, tags, from@));
        }
        out
    }
}


/// The mathematical value of an optional machine integer.
pub open spec fn opt_view(o: Option<usize>) -> Option<int> {
    match o {
        None => None,
        Some(r) => Some(r as int),
    }
}

/// One candidate match start tracked during simulation: the best match end
/// recorded so far and the set of currently active states, as flags over
/// the arena.
pub(crate) struct Frontier {
    best: Option<usize>,
    states: Vec<bool>,
}

impl View for Frontier {
    type V = FrontierView;

    closed spec fn view(&self) -> FrontierView {
        FrontierView { best: opt_view(self.best), states: self.states@ }
    }
}

/// The views of a sequence of frontiers.
pub(crate) open spec fn frontier_views(fs: Seq<Frontier>) -> Seq<FrontierView> {
    Seq::new(fs.len(), |i: int| fs[i]@)
}

impl Automata {
    /// One consuming step of one active set.
    fn step_states(&self, from: &Vec<bool>, c: char) -> (r: Vec<bool>)
        requires
            from@.len() == self@.states.len(),
        ensures
            r@ == step_set(self@, from@, c),
    {
        proof {
            use_type_invariant(self);
        }
        let ghost av = self@;
        let n = self.states.len();
        let mut out: Vec<bool> = Vec::new();
        while out.len() < n
            invariant
                out@.len() <= n,
                forall|k: int| 0 <= k < out@.len() ==> !(#[trigger] out@[k]),
            decreases n - out@.len(),
        {
            out.push(false);
        }
        let mut j: usize = 0;
        while j < n
            invariant
                av == self@,
                auto_wf(av),
                n == av.states.len(),
                from@.len() == n,
                out@.len() == n,
                j <= n,
                forall|d: int|
                    0 <= d < n ==> (#[trigger] out@[d] <==> exists|k: int|
                        0 <= k < j && from@[k] && #[trigger] char_dest(av.states[k], c) == Some(
                            d,
                        )),
            decreases n - j,
        {
            if from[j] {
                proof {
                    assert(av.states[j as int] == self.states@[j as int]@);
                    assert(state_wf(av.states[j as int], n as int));
                }
                let ghost out_pre = out@;
                match self.states[j].transition(c) {
                    Some(d) => {
                        proof {
                            assert(char_dest(av.states[j as int], c) == Some(d as int));
                            assert(0 <= d < n);
                        }
                        out.set(d, true);
                        proof {
                            assert forall|dd: int| 0 <= dd < n implies (#[trigger] out@[dd]
                                <==> exists|k: int|
                                    0 <= k < j + 1 && from@[k] && #[trigger] char_dest(
                                        av.states[k],
                                        c,
                                    ) == Some(dd)) by {
                                if dd == d {
                                    assert(char_dest(av.states[j as int], c) == Some(dd));
                                } else {
                                    assert(out@[dd] == out_pre[dd]);
                                    if out@[dd] {
                                        let k = choose|k: int|
                                            0 <= k < j && from@[k] && #[trigger] char_dest(
                                                av.states[k],
                                                c,
                                            ) == Some(dd);
                                        assert(char_dest(av.states[k], c) == Some(dd));
                                    } else {
                                        assert forall|k: int|
                                            0 <= k < j + 1 && from@[k] implies #[trigger] char_dest(
                                            av.states[k],
                                            c,
                                        ) != Some(dd) by {
                                            if k == j {
                                                assert(char_dest(av.states[k], c) == Some(
                                                    d as int,
                                                ));
                                            }
                                        }
                                    }
                                }
                            }
                        }
                    }
                    None => {
                        proof {
                            assert(char_dest(av.states[j as int], c) is None);
                            assert forall|dd: int| 0 <= dd < n implies (#[trigger] out@[dd]
                                <==> exists|k: int|
                                    0 <= k < j + 1 && from@[k] && #[trigger] char_dest(
                                        av.states[k],
                                        c,
                                    ) == Some(dd)) by {
                                if out@[dd] {
                                    let k = choose|k: int|
                                        0 <= k < j && from@[k] && #[trigger] char_dest(
                                            av.states[k],
                                            c,
                                        ) == Some(dd);
                                    assert(char_dest(av.states[k], c) == Some(dd));
                                } else {
                                    assert forall|k: int|
                                        0 <= k < j + 1 && from@[k] implies #[trigger] char_dest(
                                        av.states[k],
                                        c,
                                    ) != Some(dd) by {}
                                }
                            }
                        }
                    }
                }
            } else {
                proof {
                    assert forall|dd: int| 0 <= dd < n implies (#[trigger] out@[dd]
                        <==> exists|k: int|
                            0 <= k < j + 1 && from@[k] && #[trigger] char_dest(av.states[k], c)
                                == Some(dd)) by {
                        if out@[dd] {
                            let k = choose|k: int|
                                0 <= k < j && from@[k] && #[trigger] char_dest(av.states[k], c)
                                    == Some(dd);
                            assert(char_dest(av.states[k], c) == Some(dd));
                        } else {
                            assert forall|k: int|
                                0 <= k < j + 1 && from@[k] implies #[trigger] char_dest(
                                av.states[k],
                                c,
                            ) != Some(dd) by {}
                        }
                    }
                }
            }
            j += 1;
        }
        proof {
            assert(out@ =~= step_set(av, from@, c));
        }
        out
    }

    /// The active set holding exactly the start state.
    fn seed_states(&self) -> (r: Vec<bool>)
        ensures
            r@ == seed(self@),
    {
        proof {
            use_type_invariant(self);
        }
        let n = self.states.len();
        let mut out: Vec<bool> = Vec::new();
        while out.len() < n
            invariant
                out@.len() <= n,
                n == self@.states.len(),
                0 <= self@.start < n,
                self.start as int == self@.start,
                forall|k: int| 0 <= k < out@.len() ==> #[trigger] out@[k] == (k == self@.start),
            decreases n - out@.len(),
        {
            out.push(out.len() == self.start);
        }
        proof {
            assert(out@ =~= seed(self@));
        }
        out
    }

    /// The boundary event at position `pos`: push a fresh frontier and
    /// epsilon-close every frontier, recording match ends.
    fn boundary_event(&self, fs: &mut Vec<Frontier>, pos: usize, chars: &Vec<char>)
        requires
            pos <= chars@.len(),
            forall|i: int| 0 <= i < old(fs)@.len() ==> (#[trigger] old(fs)@[i]).states@.len()
                == self@.states.len(),
        ensures
            frontier_views(final(fs)@) == boundary_step(
                self@,
                frontier_views(old(fs)@),
                pos as int,
                boundary_tags(chars@, pos as int),
            ),
            forall|i: int| 0 <= i < final(fs)@.len() ==> (#[trigger] final(fs)@[i]).states@.len()
                == self@.states.len(),
    {
        proof {
            use_type_invariant(self);
        }
        let ghost av = self@;
        let anchors = get_anchors(chars, pos);
        let ghost tags = anchors@;
        let seeded = self.seed_states();
        fs.push(Frontier { best: None, states: seeded });
        let ghost snap = fs@;
        let len = fs.len();
        let mut k: usize = 0;
        while k < len
            invariant
                av == self@,
                auto_wf(av),
                tags == anchors@,
                len == snap.len(),
                fs@.len() == len,
                k <= len,
                forall|i: int| k <= i < len ==> #[trigger] fs@[i] == snap[i],
                forall|i: int| 0 <= i < len ==> (#[trigger] snap[i]).states@.len()
                    == av.states.len(),
                forall|i: int|
                    0 <= i < k ==> #[trigger] fs@[i]@ == close_frontier(
                        av,
                        tags,
                        snap[i]@,
                        pos as int,
                    ),
                forall|i: int| 0 <= i < k ==> (#[trigger] fs@[i]).states@.len()
                    == av.states.len(),
            decreases len - k,
        {
            let cl = self.exhaust_epsilons(&fs[k].states, &anchors);
            proof {
                assert(cl@.len() == av.states.len());
                assert(0 <= av.accept < av.states.len());
            }
            let hit = cl[self.accept];
            let newbest = if hit {
                Some(pos)
            } else {
                fs[k].best
            };
            let ghost old_elem = fs@[k as int];
            fs.set(k, Frontier { best: newbest, states: cl });
            proof {
                assert(fs@[k as int]@ =~~= close_frontier(av, tags, snap[k as int]@, pos as int));
            }
            k += 1;
        }
        proof {
            let pushed = frontier_views(old(fs)@) + seq![FrontierView { best: None, states: seed(av) }];
            assert forall|i: int| 0 <= i < len implies #[trigger] snap[i]@ == pushed[i] by {
                if i < len - 1 {
                    assert(snap[i] == old(fs)@[i]);
                }
            }
            assert(frontier_views(fs@) =~= pushed.map_values(
                |f: FrontierView| close_frontier(av, tags, f, pos as int),
            ));
        }
    }

    /// The character event: every frontier fires its consuming transitions.
    fn char_event(&self, fs: &mut Vec<Frontier>, c: char)
        requires
            forall|i: int| 0 <= i < old(fs)@.len() ==> (#[trigger] old(fs)@[i]).states@.len()
                == self@.states.len(),
        ensures
            frontier_views(final(fs)@) == char_step_frontiers(
                self@,
                frontier_views(old(fs)@),
                c,
            ),
            forall|i: int| 0 <= i < final(fs)@.len() ==> (#[trigger] final(fs)@[i]).states@.len()
                == self@.states.len(),
    {
        proof {
            use_type_invariant(self);
        }
        let ghost av = self@;
        let ghost snap = fs@;
        let len = fs.len();
        let mut k: usize = 0;
        while k < len
            invariant
                av == self@,
                auto_wf(av),
                len == snap.len(),
                fs@.len() == len,
                k <= len,
                forall|i: int| k <= i < len ==> #[trigger] fs@[i] == snap[i],
                forall|i: int| 0 <= i < len ==> (#[trigger] snap[i]).states@.len()
                    == av.states.len(),
                forall|i: int|
                    0 <= i < k ==> #[trigger] fs@[i]@ == (FrontierView {
                        best: snap[i]@.best,
                        states: step_set(av, snap[i]@.states, c),
                    }),
                forall|i: int| 0 <= i < k ==> (#[trigger] fs@[i]).states@.len()
                    == av.states.len(),
            decreases len - k,
        {
            let stepped = self.step_states(&fs[k].states, c);
            let b = fs[k].best;
            fs.set(k, Frontier { best: b, states: stepped });
            k += 1;
        }
        proof {
            assert(frontier_views(fs@) =~= char_step_frontiers(av, frontier_views(snap), c));
        }
    }

    /// Runs the full event stream over `chars`: boundary 0, char 0,
    /// boundary 1, ..., ending with the boundary after the last character.
    fn simulate(&self, chars: &Vec<char>) -> (r: Vec<Frontier>)
        ensures
            frontier_views(r@) == sim_frontiers(self@, chars@, chars@.len() as int),
    {
        proof {
            use_type_invariant(self);
        }
        let ghost av = self@;
        let ghost s = chars@;
        let n_input = chars.len();
        let mut frontiers: Vec<Frontier> = Vec::new();
        self.boundary_event(&mut frontiers, 0, chars);
        proof {
            assert(frontier_views(Seq::<Frontier>::empty()) =~= Seq::<FrontierView>::empty());
            assert(frontier_views(frontiers@) == sim_frontiers(av, s, 0));
        }
        let mut pos: usize = 0;
        while pos < n_input
            invariant
                av == self@,
                auto_wf(av),
                s == chars@,
                n_input == s.len(),
                pos <= n_input,
                frontier_views(frontiers@) == sim_frontiers(av, s, pos as int),
                forall|i: int| 0 <= i < frontiers@.len() ==> (#[trigger] frontiers@[i]).states@.len()
                    == av.states.len(),
            decreases n_input - pos,
        {
            let c = chars[pos];
            self.char_event(&mut frontiers, c);
            pos += 1;
            self.boundary_event(&mut frontiers, pos, chars);
            proof {
                assert(frontier_views(frontiers@) == sim_frontiers(av, s, pos as int));
            }
        }
        frontiers
    }
}


/// The mathematical values of a vector of recorded ends.
pub(crate) open spec fn opt_views(b: Seq<Option<usize>>) -> Seq<Option<int>> {
    Seq::new(b.len(), |i: int| opt_view(b[i]))
}

/// The mathematical values of a vector of intervals.
pub(crate) open spec fn pair_views(p: Seq<(usize, usize)>) -> Seq<(int, int)> {
    Seq::new(p.len(), |i: int| (p[i].0 as int, p[i].1 as int))
}

/// The mathematical values of a vector of character vectors.
pub(crate) open spec fn vec_views(ms: Seq<Vec<char>>) -> Seq<Seq<char>> {
    Seq::new(ms.len(), |i: int| ms[i]@)
}

/// Walks the recorded ends in start order and admits the non-overlapping
/// matches: a match starting at `k` is kept only if it starts at or after
/// the previous admitted end and extends strictly past it.
fn admit_matches(bests: &Vec<Option<usize>>) -> (r: Vec<(usize, usize)>)
    ensures
        pair_views(r@) == admitted(opt_views(bests@)),
{
    let ghost bv = opt_views(bests@);
    let mut r: Vec<(usize, usize)> = Vec::new();
    let mut k: usize = 0;
    while k < bests.len()
        invariant
            bv == opt_views(bests@),
            k <= bests@.len(),
            pair_views(r@) == admitted_up_to(bv, k as int),
        decreases bests@.len() - k,
    {
        proof {
            assert(bv[k as int] == opt_view(bests@[k as int]));
        }
        match bests[k] {
            Some(end) => {
                let ghost prev = admitted_up_to(bv, k as int);
                let ok = if r.len() == 0 {
                    true
                } else {
                    let last = r[r.len() - 1];
                    proof {
                        assert(pair_views(r@)[r@.len() - 1] == (last.0 as int, last.1 as int));
                        assert(prev.last() == (last.0 as int, last.1 as int));
                    }
                    last.1 <= k && last.1 < end
                };
                proof {
                    assert(ok == can_admit(prev, k as int, end as int));
                }
                if ok {
                    r.push((k, end));
                }
                proof {
                    assert(pair_views(r@) =~= admitted_up_to(bv, k + 1));
                }
            }
            None => {
                proof {
                    assert(pair_views(r@) =~= admitted_up_to(bv, k + 1));
                }
            }
        }
        k += 1;
    }
    proof {
        assert(pair_views(r@) =~= admitted(bv));
    }
    r
}

/// The index of the first longest entry, if any.
fn pick_first_longest(ms: &Vec<Vec<char>>) -> (r: Option<usize>)
    ensures
        match r {
            None => ms@.len() == 0 && first_longest(vec_views(ms@)) is None,
            Some(i) => 0 <= i < ms@.len() && first_longest(vec_views(ms@)) == Some(ms@[i as int]@),
        },
{
    let ghost vv = vec_views(ms@);
    let mut best: Option<usize> = None;
    let mut i: usize = 0;
    while i < ms.len()
        invariant
            vv == vec_views(ms@),
            i <= ms@.len(),
            best is None <==> i == 0,
            match best {
                None => true,
                Some(b) => 0 <= b < i && first_longest(vv.subrange(0, i as int)) == Some(
                    ms@[b as int]@,
                ),
            },
        decreases ms@.len() - i,
    {
        proof {
            assert(vv.subrange(0, i + 1).drop_last() =~= vv.subrange(0, i as int));
            assert(vv.subrange(0, i + 1).last() == ms@[i as int]@);
        }
        match best {
            None => {
                best = Some(i);
            }
            Some(b) => {
                if ms[i].len() > ms[b].len() {
                    best = Some(i);
                }
            }
        }
        i += 1;
    }
    proof {
        if i > 0 {
            assert(vv.subrange(0, ms@.len() as int) =~= vv);
        }
    }
    best
}

impl Automata {
    /// Runs the automaton over `expr` and returns the greedy result
    /// together with all non-overlapping matches, in start order.
    fn search(&self, expr: &str) -> (r: (Option<String>, Vec<String>))
        ensures
            ({
                let ms = spec_global_search(self@, expr@);
                &&& r.1@.len() == ms.len()
                &&& (forall|i: int| 0 <= i < ms.len() ==> #[trigger] r.1@[i]@ == ms[i])
                &&& (match r.0 {
                    None => spec_greedy_search(self@, expr@) is None,
                    Some(g) => spec_greedy_search(self@, expr@) == Some(g@),
                })
            }),
    {
        proof {
            use_type_invariant(self);
        }
        let ghost av = self@;
        let chars = crate::chars::str_to_chars(expr);
        let ghost s = chars@;
        let frontiers = self.simulate(&chars);
        let mut bests: Vec<Option<usize>> = Vec::new();
        let mut i: usize = 0;
        while i < frontiers.len()
            invariant
                i <= frontiers@.len(),
                bests@.len() == i,
                forall|k: int| 0 <= k < i ==> #[trigger] bests@[k] == frontiers@[k].best,
            decreases frontiers@.len() - i,
        {
            let b = frontiers[i].best;
            bests.push(b);
            i += 1;
        }
        proof {
            assert forall|k: int| 0 <= k < bests@.len() implies #[trigger] opt_views(bests@)[k]
                == best_ends(av, s)[k] by {
                assert(frontier_views(frontiers@)[k] == frontiers@[k]@);
            }
            assert(opt_views(bests@) =~= best_ends(av, s));
            lemma_best_ends_bounds(av, s);
        }
        let intervals = admit_matches(&bests);
        let ghost ad = admitted(best_ends(av, s));
        proof {
            lemma_admitted_bounds(best_ends(av, s), s.len() as int, best_ends(av, s).len() as int);
        }
        let mut out_chars: Vec<Vec<char>> = Vec::new();
        let mut i: usize = 0;
        while i < intervals.len()
            invariant
                s == chars@,
                ad == admitted(best_ends(av, s)),
                pair_views(intervals@) == ad,
                forall|k: int|
                    0 <= k < ad.len() ==> {
                        let m = #[trigger] ad[k];
                        0 <= m.0 <= m.1 <= s.len()
                    },
                i <= intervals@.len(),
                out_chars@.len() == i,
                forall|k: int| 0 <= k < i ==> #[trigger] out_chars@[k]@ == s.subrange(
                    ad[k].0,
                    ad[k].1,
                ),
            decreases intervals@.len() - i,
        {
            let (l, rr) = intervals[i];
            proof {
                assert(pair_views(intervals@)[i as int] == (l as int, rr as int));
                assert(ad[i as int] == (l as int, rr as int));
            }
            let piece = crate::chars::sub_chars(&chars, l, rr);
            out_chars.push(piece);
            i += 1;
        }
        proof {
            assert(vec_views(out_chars@) =~= match_strings(s, ad));
            assert(vec_views(out_chars@) == spec_global_search(av, s));
        }
        let greedy_idx = pick_first_longest(&out_chars);
        let greedy: Option<String> = match greedy_idx {
            None => None,
            Some(gi) => Some(crate::chars::chars_to_string(&out_chars[gi])),
        };
        let mut out: Vec<String> = Vec::new();
        let mut i: usize = 0;
        while i < out_chars.len()
            invariant
                i <= out_chars@.len(),
                out@.len() == i,
                forall|k: int| 0 <= k < i ==> #[trigger] out@[k]@ == out_chars@[k]@,
            decreases out_chars@.len() - i,
        {
            let piece = crate::chars::chars_to_string(&out_chars[i]);
            out.push(piece);
            i += 1;
        }
        proof {
            assert forall|k: int| 0 <= k < spec_global_search(av, s).len() implies #[trigger] out@[k]@
                == spec_global_search(av, s)[k] by {
                assert(out@[k]@ == out_chars@[k]@);
                assert(vec_views(out_chars@)[k] == out_chars@[k]@);
            }
        }
        (greedy, out)
    }

    /// All non-overlapping matches of the automaton in `expr`, leftmost
    /// first.
    pub fn global_search(&self, expr: &str) -> (r: Vec<String>)
        ensures
            r@.len() == spec_global_search(self@, expr@).len(),
            forall|i: int|
                0 <= i < r@.len() ==> #[trigger] r@[i]@ == spec_global_search(self@, expr@)[i],
    {
        self.search(expr).1
    }

    /// The first longest of the non-overlapping matches, or `None` if there
    /// is no match at all.
    pub fn greedy_search(&self, expr: &str) -> (r: Option<String>)
        ensures
            match r {
                None => spec_greedy_search(self@, expr@) is None,
                Some(g) => spec_greedy_search(self@, expr@) == Some(g@),
            },
    {
        self.search(expr).0
    }

    /// Whether the automaton matches the whole of `expr`.
    pub fn full_match(&self, expr: &str) -> (r: bool)
        ensures
            r == spec_full_match(self@, expr@),
    {
        match self.greedy_search(expr) {
            Some(matched) => matched.as_str().unicode_len() == expr.unicode_len(),
            None => false,
        }
    }
}

} // verus!
