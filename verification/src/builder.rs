//! The compiler from syntax trees to automata: Thompson's construction, one
//! fragment per node, each fragment between an entry and an exit state that
//! the caller hands in.

use vstd::prelude::*;
use crate::language::{accepts, in_language, lemma_accepts_language};
use crate::nfa::{
    add_edge, add_state, lemma_add_edge_well_formed, lemma_add_state_well_formed, well_formed,
    Graph, Nfa, State, Transition,
};
use crate::syntax::{
    first_unsupported, lemma_supported_operands, lemma_view_operands, supported, views, Regex,
    RepetitionKind, Syntax, Unsupported,
};

verus! {

/// The automaton that results from `g` when the fragment for `r` is built
/// into it between the existing states `start` and `end`.
///
/// - The empty expression is one epsilon move from `start` to `end`.
/// - A literal is one move from `start` to `end` that consumes it.
/// - A group is its operand.
/// - A concatenation chains its operands through one fresh state between
///   each two neighbours; without operands it is the empty expression.
/// - An alternation builds every branch between the same `start` and `end`.
/// - `x?` is `x` and an epsilon move from `start` to `end`.
/// - `x*` is `x` built from `start` back to `start`, and an epsilon move
///   from `start` to `end`.
/// - `x+` is `x` and an epsilon move back from `end` to `start`.
///
/// A node that the compiler does not handle leaves `g` as it is.
pub open spec fn built(g: Graph, r: Syntax, start: State, end: State) -> Graph
    decreases r,
{
    match r {
        Syntax::Empty => add_edge(g, start as int, Transition::Goto(end)),
        Syntax::Literal(c) => add_edge(g, start as int, Transition::Consume(c, end)),
        Syntax::Concat(xs) => built_concat(g, xs, start, end),
        Syntax::Alternation(xs) => built_alternation(g, xs, start, end),
        Syntax::Repetition(kind, x) => match kind {
            RepetitionKind::ZeroOrOne => add_edge(
                built(g, *x, start, end),
                start as int,
                Transition::Goto(end),
            ),
            RepetitionKind::ZeroOrMore => add_edge(
                built(g, *x, start, start),
                start as int,
                Transition::Goto(end),
            ),
            RepetitionKind::OneOrMore => add_edge(
                built(g, *x, start, end),
                end as int,
                Transition::Goto(start),
            ),
            RepetitionKind::Range => g,
        },
        Syntax::Group(x) => built(g, *x, start, end),
        Syntax::Class => g,
        Syntax::Anchor => g,
        Syntax::WordBoundary => g,
    }
}

/// The operands `xs` of a concatenation, built into `g` as a chain from
/// `start` to `end`: the exit of each operand but the last is a fresh state,
/// which is the entry of the next.
pub open spec fn built_concat(g: Graph, xs: Seq<Syntax>, start: State, end: State) -> Graph
    decreases xs,
{
    if xs.len() == 0 {
        add_edge(g, start as int, Transition::Goto(end))
    } else if xs.len() == 1 {
        built(g, xs[0], start, end)
    } else {
        let mid = g.len() as State;
        built_concat(built(add_state(g), xs[0], start, mid), xs.drop_first(), mid, end)
    }
}

/// The branches `xs` of an alternation, built into `g` one after the other,
/// each from `start` to `end`.
pub open spec fn built_alternation(g: Graph, xs: Seq<Syntax>, start: State, end: State) -> Graph
    decreases xs,
{
    if xs.len() == 0 {
        g
    } else {
        built_alternation(built(g, xs[0], start, end), xs.drop_first(), start, end)
    }
}

/// The number of states that the fragment for `r` allocates: one between
/// each two neighbours of a concatenation, and none for any other node.
pub open spec fn fresh_states(r: Syntax) -> nat
    decreases r,
{
    match r {
        Syntax::Concat(xs) => fresh_states_in(xs) + if xs.len() > 0 {
            (xs.len() - 1) as nat
        } else {
            0
        },
        Syntax::Alternation(xs) => fresh_states_in(xs),
        Syntax::Repetition(kind, x) => if kind == RepetitionKind::Range {
            0
        } else {
            fresh_states(*x)
        },
        Syntax::Group(x) => fresh_states(*x),
        _ => 0,
    }
}

/// The number of states that the fragments for the trees of `xs` allocate
/// together.
pub open spec fn fresh_states_in(xs: Seq<Syntax>) -> nat
    decreases xs,
{
    if xs.len() == 0 {
        0
    } else {
        fresh_states(xs[0]) + fresh_states_in(xs.drop_first())
    }
}

/// `h` has the states of `g`, and each of them has in `h` the transitions
/// that it has in `g`, in the same order, before any others.
pub open spec fn extends(g: Graph, h: Graph) -> bool {
    &&& g.len() <= h.len()
    &&& forall|s: int| 0 <= s < g.len() ==> (#[trigger] g[s]).is_prefix_of(h[s])
}

/// Extending twice is extending.
pub proof fn lemma_extends_transitive(g: Graph, h: Graph, k: Graph)
    requires
        extends(g, h),
        extends(h, k),
    ensures
        extends(g, k),
{
    assert forall|s: int| 0 <= s < g.len() implies (#[trigger] g[s]).is_prefix_of(k[s]) by {
        assert(g[s].is_prefix_of(h[s]));
        assert(h[s].is_prefix_of(k[s]));
        assert(g[s] =~= k[s].subrange(0, g[s].len() as int));
    }
}

/// A new state and a new edge each extend an automaton.
pub proof fn lemma_steps_extend(g: Graph, from: int, t: Transition)
    requires
        0 <= from < g.len(),
    ensures
        extends(g, g),
        extends(g, add_state(g)),
        extends(g, add_edge(g, from, t)),
{
    assert forall|s: int| 0 <= s < g.len() implies (#[trigger] g[s]).is_prefix_of(g[s]) by {
        assert(g[s] =~= g[s].subrange(0, g[s].len() as int));
    }
    let h = add_edge(g, from, t);
    assert forall|s: int| 0 <= s < g.len() implies (#[trigger] g[s]).is_prefix_of(h[s]) by {
        assert(g[s] =~= h[s].subrange(0, g[s].len() as int));
    }
    let k = add_state(g);
    assert forall|s: int| 0 <= s < g.len() implies (#[trigger] g[s]).is_prefix_of(k[s]) by {
        assert(k[s] == g[s]);
    }
}

/// Building a fragment allocates the states that `fresh_states` counts and
/// no others, takes no transition away from a state and moves none, and
/// keeps every transition in range.
pub proof fn lemma_built(g: Graph, r: Syntax, start: State, end: State)
    requires
        start < g.len(),
        end < g.len(),
        g.len() + fresh_states(r) <= usize::MAX,
    ensures
        built(g, r, start, end).len() == g.len() + fresh_states(r),
        extends(g, built(g, r, start, end)),
        well_formed(g) ==> well_formed(built(g, r, start, end)),
    decreases r,
{
    lemma_steps_extend(g, start as int, Transition::Goto(end));
    match r {
        Syntax::Empty => {
            if well_formed(g) {
                lemma_add_edge_well_formed(g, start as int, Transition::Goto(end));
            }
        },
        Syntax::Literal(c) => {
            lemma_steps_extend(g, start as int, Transition::Consume(c, end));
            if well_formed(g) {
                lemma_add_edge_well_formed(g, start as int, Transition::Consume(c, end));
            }
        },
        Syntax::Concat(xs) => {
            lemma_built_concat(g, xs, start, end);
        },
        Syntax::Alternation(xs) => {
            lemma_built_alternation(g, xs, start, end);
        },
        Syntax::Repetition(kind, x) => {
            if kind != RepetitionKind::Range {
                let (exit, from, to) = match kind {
                    RepetitionKind::ZeroOrOne => (end, start, end),
                    RepetitionKind::ZeroOrMore => (start, start, end),
                    _ => (end, end, start),
                };
                lemma_built(g, *x, start, exit);
                let inner = built(g, *x, start, exit);
                lemma_steps_extend(inner, from as int, Transition::Goto(to));
                lemma_extends_transitive(g, inner, add_edge(inner, from as int, Transition::Goto(to)));
                if well_formed(g) {
                    lemma_add_edge_well_formed(inner, from as int, Transition::Goto(to));
                }
            }
        },
        Syntax::Group(x) => {
            lemma_built(g, *x, start, end);
        },
        _ => {},
    }
}

/// The number of states that a concatenation of `xs` allocates.
pub open spec fn fresh_states_concat(xs: Seq<Syntax>) -> nat {
    fresh_states_in(xs) + if xs.len() > 0 {
        (xs.len() - 1) as nat
    } else {
        0
    }
}

/// `lemma_built` for the operands of a concatenation.
pub proof fn lemma_built_concat(g: Graph, xs: Seq<Syntax>, start: State, end: State)
    requires
        start < g.len(),
        end < g.len(),
        g.len() + fresh_states_concat(xs) <= usize::MAX,
    ensures
        built_concat(g, xs, start, end).len() == g.len() + fresh_states_concat(xs),
        extends(g, built_concat(g, xs, start, end)),
        well_formed(g) ==> well_formed(built_concat(g, xs, start, end)),
    decreases xs,
{
    lemma_steps_extend(g, start as int, Transition::Goto(end));
    if xs.len() == 0 {
        if well_formed(g) {
            lemma_add_edge_well_formed(g, start as int, Transition::Goto(end));
        }
    } else if xs.len() == 1 {
        assert(fresh_states_in(xs.drop_first()) == 0);
        lemma_built(g, xs[0], start, end);
    } else {
        let mid = g.len() as State;
        let wider = add_state(g);
        if well_formed(g) {
            lemma_add_state_well_formed(g);
        }
        lemma_built(wider, xs[0], start, mid);
        let first = built(wider, xs[0], start, mid);
        lemma_built_concat(first, xs.drop_first(), mid, end);
        let all = built_concat(first, xs.drop_first(), mid, end);
        lemma_extends_transitive(g, wider, first);
        lemma_extends_transitive(g, first, all);
    }
}

/// `lemma_built` for the branches of an alternation.
pub proof fn lemma_built_alternation(g: Graph, xs: Seq<Syntax>, start: State, end: State)
    requires
        start < g.len(),
        end < g.len(),
        g.len() + fresh_states_in(xs) <= usize::MAX,
    ensures
        built_alternation(g, xs, start, end).len() == g.len() + fresh_states_in(xs),
        extends(g, built_alternation(g, xs, start, end)),
        well_formed(g) ==> well_formed(built_alternation(g, xs, start, end)),
    decreases xs,
{
    lemma_steps_extend(g, start as int, Transition::Goto(end));
    if xs.len() > 0 {
        lemma_built(g, xs[0], start, end);
        let first = built(g, xs[0], start, end);
        lemma_built_alternation(first, xs.drop_first(), start, end);
        lemma_extends_transitive(g, first, built_alternation(first, xs.drop_first(), start, end));
    }
}

/// An alternation adds no state for branching or merging: its branches all
/// leave `start` and enter `end`, and the only states it allocates are those
/// of its branches.
pub proof fn lemma_alternation_shares_states(
    g: Graph,
    xs: Seq<Syntax>,
    start: State,
    end: State,
)
    requires
        start < g.len(),
        end < g.len(),
        g.len() + fresh_states_in(xs) <= usize::MAX,
    ensures
        built(g, Syntax::Alternation(xs), start, end).len() == g.len() + fresh_states_in(xs),
        xs.len() > 0 ==> built(g, Syntax::Alternation(xs), start, end) == built(
            built(g, xs[0], start, end),
            Syntax::Alternation(xs.drop_first()),
            start,
            end,
        ),
        (forall|k: int| 0 <= k < xs.len() ==> fresh_states(#[trigger] xs[k]) == 0) ==> built(
            g,
            Syntax::Alternation(xs),
            start,
            end,
        ).len() == g.len(),
{
    lemma_built_alternation(g, xs, start, end);
    if forall|k: int| 0 <= k < xs.len() ==> fresh_states(#[trigger] xs[k]) == 0 {
        lemma_no_fresh_states(xs);
    }
}

/// Trees that allocate no state allocate none together.
pub proof fn lemma_no_fresh_states(xs: Seq<Syntax>)
    requires
        forall|k: int| 0 <= k < xs.len() ==> fresh_states(#[trigger] xs[k]) == 0,
    ensures
        fresh_states_in(xs) == 0,
    decreases xs.len(),
{
    if xs.len() > 0 {
        let rest = xs.drop_first();
        assert forall|k: int| 0 <= k < rest.len() implies fresh_states(#[trigger] rest[k]) == 0 by {
            assert(rest[k] == xs[k + 1]);
        }
        lemma_no_fresh_states(rest);
    }
}

/// Every tree of `xs` is a literal.
pub open spec fn all_literals(xs: Seq<Syntax>) -> bool {
    forall|i: int| 0 <= i < xs.len() ==> (#[trigger] xs[i]) is Literal
}

/// The state after `i` of the `n` moves of a chain from `start` to `end`
/// whose inner states are numbered from `first_fresh`.
pub open spec fn chain_state(first_fresh: nat, n: nat, start: State, end: State, i: nat) -> State {
    if i == 0 {
        start
    } else if i == n {
        end
    } else {
        (first_fresh + i - 1) as State
    }
}

/// `h` is `g` with a chain of moves from `start` to `end` that consume the
/// literals `xs` one after the other: `start` has one more transition, the
/// first move; between each two neighbours stands a fresh state, whose only
/// transition is the move to the next; all other states are as they were.
pub open spec fn has_chain(g: Graph, h: Graph, xs: Seq<Syntax>, start: State, end: State) -> bool {
    let n = xs.len();
    &&& h.len() == g.len() + n - 1
    &&& forall|s: int| 0 <= s < g.len() && s != start ==> #[trigger] h[s] == g[s]
    &&& h[start as int] == g[start as int].push(
        Transition::Consume(xs[0]->Literal_0, chain_state(g.len(), n, start, end, 1)),
    )
    &&& forall|i: int|
        1 <= i < n ==> #[trigger] h[g.len() + i - 1] == seq![
            Transition::Consume(
                xs[i]->Literal_0,
                chain_state(g.len(), n, start, end, (i + 1) as nat),
            ),
        ]
}

/// A concatenation of `n` literals is a single path of `n` consuming moves
/// from `start` to `end` through `n - 1` fresh states.
pub proof fn lemma_literal_chain(g: Graph, xs: Seq<Syntax>, start: State, end: State)
    requires
        xs.len() > 0,
        all_literals(xs),
        start < g.len(),
        end < g.len(),
        g.len() + xs.len() - 1 <= usize::MAX,
    ensures
        has_chain(g, built(g, Syntax::Concat(xs), start, end), xs, start, end),
    decreases xs.len(),
{
    let n = xs.len();
    let all = built(g, Syntax::Concat(xs), start, end);
    assert(xs[0] is Literal);
    assert(all == built_concat(g, xs, start, end));
    if n == 1 {
        assert(all == built(g, xs[0], start, end));
    } else {
        let mid = g.len() as State;
        let first = built(add_state(g), xs[0], start, mid);
        let rest = xs.drop_first();
        assert(all == built_concat(first, rest, mid, end));
        assert forall|i: int| 0 <= i < rest.len() implies (#[trigger] rest[i]) is Literal by {
            assert(rest[i] == xs[i + 1]);
        }
        lemma_literal_chain(first, rest, mid, end);
        let h = built(first, Syntax::Concat(rest), mid, end);
        assert(h == built_concat(first, rest, mid, end));
        assert(h[start as int] == first[start as int]);
        assert forall|s: int| 0 <= s < g.len() && s != start implies #[trigger] h[s] == g[s] by {
            assert(h[s] == first[s]);
        }
        assert forall|i: int| 1 <= i < n implies #[trigger] h[g.len() + i - 1] == seq![
            Transition::Consume(
                xs[i]->Literal_0,
                chain_state(g.len(), n, start, end, (i + 1) as nat),
            ),
        ] by {
            if i == 1 {
                assert(h[mid as int] == first[mid as int].push(
                    Transition::Consume(
                        rest[0]->Literal_0,
                        chain_state(first.len(), rest.len(), mid, end, 1),
                    ),
                ));
                assert(first[mid as int] =~= Seq::<Transition>::empty());
            } else {
                assert(rest[i - 1] == xs[i]);
                assert(h[first.len() + (i - 1) - 1] == seq![
                    Transition::Consume(
                        rest[i - 1]->Literal_0,
                        chain_state(first.len(), rest.len(), mid, end, i as nat),
                    ),
                ]);
            }
        }
    }
}

/// Builds the fragment for `r` into `nfa`, entering at `start` and leaving
/// at `end`. The automaton keeps what it had and gets the states and
/// transitions of the fragment; entered at `start`, it can then consume every
/// string that `r` matches and arrive at `end`.
pub fn regex_to_nfa(nfa: &mut Nfa, r: &Regex, start: State, end: State)
    requires
        start < old(nfa)@.len(),
        end < old(nfa)@.len(),
        supported(r@),
    ensures
        final(nfa)@ == built(old(nfa)@, r@, start, end),
        final(nfa)@.len() == old(nfa)@.len() + fresh_states(r@),
        extends(old(nfa)@, final(nfa)@),
        old(nfa).wf() ==> final(nfa).wf(),
        forall|w: Seq<char>| #[trigger] in_language(r@, w) ==> accepts(final(nfa)@, start, end, w),
    decreases r,
{
    let ghost g0 = nfa@;
    proof {
        lemma_steps_extend(g0, start as int, Transition::Goto(end));
        lemma_steps_extend(g0, end as int, Transition::Goto(start));
    }
    match r {
        Regex::Empty => {
            nfa.add_transition(start, Transition::Goto(end));
        },
        Regex::Literal(c) => {
            proof {
                lemma_steps_extend(g0, start as int, Transition::Consume(*c, end));
            }
            nfa.add_transition(start, Transition::Consume(*c, end));
        },
        Regex::Group(x) => {
            regex_to_nfa(nfa, &**x, start, end);
        },
        Regex::Concat(xs) => {
            let n = xs.len();
            let ghost vs = views(xs@);
            proof {
                lemma_view_operands(*r);
                lemma_supported_operands(vs);
                assert(vs.skip(0) =~= vs);
            }
            if n == 0 {
                nfa.add_transition(start, Transition::Goto(end));
                assert(vs.len() == 0);
                assert(nfa@ == built_concat(g0, vs, start, end));
            } else {
                let mut from = start;
                let mut i: usize = 0;
                while i < n
                    invariant
                        n == xs.len(),
                        0 < n,
                        i <= n,
                        vs == views(xs@),
                        decreases_to!(r => xs),
                        forall|k: int| 0 <= k < vs.len() ==> supported(#[trigger] vs[k]),
                        from < nfa@.len(),
                        end < nfa@.len(),
                        extends(g0, nfa@),
                        well_formed(g0) ==> nfa.wf(),
                        i < n ==> built_concat(nfa@, vs.skip(i as int), from, end) == built_concat(
                            g0,
                            vs,
                            start,
                            end,
                        ),
                        i == n ==> nfa@ == built_concat(g0, vs, start, end),
                        nfa@.len() + fresh_states_in(vs.skip(i as int)) + (if i < n {
                            n - 1 - i
                        } else {
                            0
                        }) == g0.len() + fresh_states_in(vs) + (n - 1),
                    decreases n - i,
                {
                    let ghost g1 = nfa@;
                    let ghost rest = vs.skip(i as int);
                    proof {
                        assert(rest[0] == vs[i as int]);
                        assert(vs[i as int] == xs@[i as int]@);
                        assert(rest.drop_first() =~= vs.skip(i + 1));
                        lemma_steps_extend(g1, from as int, Transition::Goto(end));
                    }
                    let next = if i == n - 1 {
                        end
                    } else {
                        nfa.new_state()
                    };
                    let ghost g2 = nfa@;
                    regex_to_nfa(nfa, &xs[i], from, next);
                    proof {
                        lemma_extends_transitive(g1, g2, nfa@);
                        lemma_extends_transitive(g0, g1, nfa@);
                    }
                    from = next;
                    i += 1;
                }
                assert(vs.skip(n as int).len() == 0);
            }
        },
        Regex::Alternation(xs) => {
            let n = xs.len();
            let ghost vs = views(xs@);
            proof {
                lemma_view_operands(*r);
                lemma_supported_operands(vs);
                assert(vs.skip(0) =~= vs);
            }
            let mut i: usize = 0;
            while i < n
                invariant
                    n == xs.len(),
                    i <= n,
                    vs == views(xs@),
                    decreases_to!(r => xs),
                    forall|k: int| 0 <= k < vs.len() ==> supported(#[trigger] vs[k]),
                    start < nfa@.len(),
                    end < nfa@.len(),
                    extends(g0, nfa@),
                    well_formed(g0) ==> nfa.wf(),
                    built_alternation(nfa@, vs.skip(i as int), start, end) == built_alternation(
                        g0,
                        vs,
                        start,
                        end,
                    ),
                    nfa@.len() + fresh_states_in(vs.skip(i as int)) == g0.len() + fresh_states_in(
                        vs,
                    ),
                decreases n - i,
            {
                let ghost g1 = nfa@;
                let ghost rest = vs.skip(i as int);
                proof {
                    assert(rest[0] == vs[i as int]);
                    assert(vs[i as int] == xs@[i as int]@);
                    assert(rest.drop_first() =~= vs.skip(i + 1));
                }
                regex_to_nfa(nfa, &xs[i], start, end);
                proof {
                    lemma_extends_transitive(g0, g1, nfa@);
                }
                i += 1;
            }
            assert(vs.skip(n as int).len() == 0);
        },
        Regex::Repetition(kind, x) => {
            match kind {
                RepetitionKind::ZeroOrOne => {
                    regex_to_nfa(nfa, &**x, start, end);
                    let ghost g1 = nfa@;
                    nfa.add_transition(start, Transition::Goto(end));
                    proof {
                        lemma_steps_extend(g1, start as int, Transition::Goto(end));
                        lemma_extends_transitive(g0, g1, nfa@);
                    }
                },
                RepetitionKind::ZeroOrMore => {
                    regex_to_nfa(nfa, &**x, start, start);
                    let ghost g1 = nfa@;
                    nfa.add_transition(start, Transition::Goto(end));
                    proof {
                        lemma_steps_extend(g1, start as int, Transition::Goto(end));
                        lemma_extends_transitive(g0, g1, nfa@);
                    }
                },
                RepetitionKind::OneOrMore => {
                    regex_to_nfa(nfa, &**x, start, end);
                    let ghost g1 = nfa@;
                    nfa.add_transition(end, Transition::Goto(start));
                    proof {
                        lemma_steps_extend(g1, end as int, Transition::Goto(start));
                        lemma_extends_transitive(g0, g1, nfa@);
                    }
                },
                RepetitionKind::Range => {
                    unreached::<()>();
                },
            }
        },
        Regex::Class => {
            unreached::<()>();
        },
        Regex::Anchor => {
            unreached::<()>();
        },
        Regex::WordBoundary => {
            unreached::<()>();
        },
    }
    proof {
        nfa.lemma_states_bounded();
        assert forall|w: Seq<char>| #[trigger] in_language(r@, w) implies accepts(
            nfa@,
            start,
            end,
            w,
        ) by {
            lemma_accepts_language(g0, r@, start, end, w);
        }
    }
}

/// An automaton together with its entry and exit.
#[derive(Debug)]
pub struct Automaton {
    /// The states and their transitions.
    pub nfa: Nfa,
    /// The state in which the automaton starts.
    pub start: State,
    /// The state in which the automaton accepts.
    pub accept: State,
}

/// The automaton with two states and no transitions, into which a tree is
/// compiled: state 0 is the start, state 1 the accept state.
pub open spec fn two_states() -> Graph {
    seq![Seq::<Transition>::empty(), Seq::<Transition>::empty()]
}

/// Compiles a tree into a fresh automaton between two new states. A tree
/// that holds a construct which the compiler does not handle is refused as a
/// whole, with the first such construct, and nothing is built.
pub fn compile(r: &Regex) -> (res: Result<Automaton, Unsupported>)
    ensures
        match first_unsupported(r@) {
            Some(u) => res == Err::<Automaton, Unsupported>(u),
            None => {
                &&& res matches Ok(a)
                &&& a.start == 0
                &&& a.accept == 1
                &&& a.nfa@ == built(two_states(), r@, 0, 1)
                &&& a.nfa@.len() == 2 + fresh_states(r@)
                &&& a.nfa.wf()
                &&& forall|w: Seq<char>| #[trigger]
                    in_language(r@, w) ==> accepts(a.nfa@, 0, 1, w)
            },
        },
{
    match r.unsupported() {
        Some(u) => Err(u),
        None => {
            let mut nfa = Nfa::default();
            let start = nfa.new_state();
            let accept = nfa.new_state();
            assert(nfa@ =~= two_states());
            assert(nfa.wf());
            regex_to_nfa(&mut nfa, r, start, accept);
            Ok(Automaton { nfa, start, accept })
        },
    }
}

} // verus!
