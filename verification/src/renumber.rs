//! Canonical numbering of an automaton's states: the order in which a
//! breadth-first traversal from the start state visits them.

use std::collections::VecDeque;
use vstd::prelude::*;
use crate::nfa::{well_formed, Graph, Nfa, State, Transition};

verus! {

/// Some transition of `ts` leads to `to`.
pub open spec fn leads_to(ts: Seq<Transition>, to: State) -> bool {
    exists|j: int| 0 <= j < ts.len() && (#[trigger] ts[j]).target() == to
}

/// Some transition of `from` leads to `to`.
pub open spec fn has_edge(g: Graph, from: State, to: State) -> bool {
    from < g.len() && leads_to(g[from as int], to)
}

/// `p` is a walk through `g`: a transition leads from each of its states to
/// the next.
pub open spec fn is_path(g: Graph, p: Seq<State>) -> bool {
    p.len() > 0 && forall|k: int| 0 <= k < p.len() - 1 ==> has_edge(g, #[trigger] p[k], p[k + 1])
}

/// Zero or more transitions lead from `from` to `to`.
pub open spec fn reachable(g: Graph, from: State, to: State) -> bool {
    exists|p: Seq<State>| is_path(g, p) && p[0] == from && p.last() == to
}

/// `found`, followed by the targets of `ts` that were not found before, each
/// once, in the order of `ts`.
pub open spec fn discover(found: Seq<State>, ts: Seq<Transition>) -> Seq<State>
    decreases ts.len(),
{
    if ts.len() == 0 {
        found
    } else {
        let to = ts[0].target();
        discover(
            if found.contains(to) {
                found
            } else {
                found.push(to)
            },
            ts.drop_first(),
        )
    }
}

/// The order in which a breadth-first traversal visits the states, given the
/// states `found` so far, in the order of their discovery, of which the first
/// `visited` have been visited. Visiting a state discovers the targets of its
/// transitions. A traversal visits no more states than `g` has.
pub open spec fn bfs_from(g: Graph, found: Seq<State>, visited: nat) -> Seq<State>
    decreases g.len() - visited,
{
    if visited >= found.len() || visited >= g.len() || found[visited as int] >= g.len() {
        found
    } else {
        bfs_from(g, discover(found, g[found[visited as int] as int]), visited + 1)
    }
}

/// The states that can be reached from `start`, in breadth-first order: a
/// state that was discovered earlier is visited earlier, and the targets of
/// a state's transitions are discovered in the order of the transitions.
pub open spec fn bfs_order(g: Graph, start: State) -> Seq<State> {
    bfs_from(g, seq![start], 0)
}

/// The position of `s` in `order`, if it occurs there.
pub open spec fn canonical_id(order: Seq<State>, s: State) -> Option<State> {
    if order.contains(s) {
        Some(order.index_of(s) as State)
    } else {
        None
    }
}

/// For each state of `g`, its position in the breadth-first order from
/// `start`, or `None` if the traversal does not come to it.
pub open spec fn numbering(g: Graph, start: State) -> Seq<Option<State>> {
    Seq::new(g.len(), |s: int| canonical_id(bfs_order(g, start), s as State))
}

/// What holds of a traversal of `g` from `start` at every moment: the states
/// found are distinct states of `g` that can be reached from `start`, which
/// comes first, and every target of a visited state has been found.
pub open spec fn traversal(g: Graph, start: State, found: Seq<State>, visited: nat) -> bool {
    &&& well_formed(g)
    &&& found.len() > 0
    &&& found[0] == start
    &&& found.no_duplicates()
    &&& forall|k: int|
        0 <= k < found.len() ==> (#[trigger] found[k]) < g.len() && reachable(g, start, found[k])
    &&& visited <= found.len()
    &&& forall|k: int, j: int|
        0 <= k < visited && 0 <= j < g[found[k] as int].len() ==> found.contains(
            (#[trigger] g[found[k] as int][j]).target(),
        )
}

/// Distinct numbers below `n` are at most `n`.
pub proof fn lemma_distinct_bounded(s: Seq<State>, n: nat)
    requires
        s.no_duplicates(),
        forall|k: int| 0 <= k < s.len() ==> (#[trigger] s[k]) < n,
    ensures
        s.len() <= n,
    decreases n,
{
    if s.len() > 0 {
        if n == 0 {
            assert(s[0] < n);
        } else {
            let top = (n - 1) as State;
            if s.contains(top) {
                let p = s.index_of(top);
                let rest = s.remove(p);
                assert forall|k: int| 0 <= k < rest.len() implies (#[trigger] rest[k]) < n - 1 by {
                    if k < p {
                        assert(rest[k] == s[k]);
                    } else {
                        assert(rest[k] == s[k + 1]);
                    }
                }
                assert forall|i: int, j: int|
                    0 <= i < rest.len() && 0 <= j < rest.len() && i != j implies rest[i]
                    != rest[j] by {
                    let a = if i < p { i } else { i + 1 };
                    let b = if j < p { j } else { j + 1 };
                    assert(rest[i] == s[a] && rest[j] == s[b]);
                }
                lemma_distinct_bounded(rest, (n - 1) as nat);
            } else {
                assert forall|k: int| 0 <= k < s.len() implies (#[trigger] s[k]) < n - 1 by {
                    assert(s.contains(s[k]));
                }
                lemma_distinct_bounded(s, (n - 1) as nat);
            }
        }
    }
}

/// Every state can be reached from itself.
pub proof fn lemma_reachable_self(g: Graph, s: State)
    ensures
        reachable(g, s, s),
{
    let p = seq![s];
    assert(is_path(g, p) && p[0] == s && p.last() == s);
}

/// A walk can be continued along a transition.
pub proof fn lemma_reachable_step(g: Graph, a: State, b: State, c: State)
    requires
        reachable(g, a, b),
        has_edge(g, b, c),
    ensures
        reachable(g, a, c),
{
    let p = choose|p: Seq<State>| is_path(g, p) && p[0] == a && p.last() == b;
    let q = p.push(c);
    assert forall|k: int| 0 <= k < q.len() - 1 implies has_edge(g, #[trigger] q[k], q[k + 1]) by {
        if k < p.len() - 1 {
            assert(has_edge(g, p[k], p[k + 1]));
        }
    }
    assert(is_path(g, q) && q[0] == a && q.last() == c);
}

/// What discovering the targets of `ts` adds to `found`: nothing is lost or
/// moved, nothing occurs twice, every target is there, and whatever is new is
/// a target.
pub proof fn lemma_discover(found: Seq<State>, ts: Seq<Transition>, n: nat)
    requires
        found.no_duplicates(),
        forall|k: int| 0 <= k < found.len() ==> (#[trigger] found[k]) < n,
        forall|j: int| 0 <= j < ts.len() ==> (#[trigger] ts[j]).target() < n,
    ensures
        found.is_prefix_of(discover(found, ts)),
        discover(found, ts).no_duplicates(),
        forall|k: int|
            0 <= k < discover(found, ts).len() ==> (#[trigger] discover(found, ts)[k]) < n,
        forall|j: int|
            0 <= j < ts.len() ==> discover(found, ts).contains((#[trigger] ts[j]).target()),
        forall|k: int|
            found.len() <= k < discover(found, ts).len() ==> leads_to(
                ts,
                #[trigger] discover(found, ts)[k],
            ),
    decreases ts.len(),
{
    let all = discover(found, ts);
    if ts.len() == 0 {
        assert(found =~= all.subrange(0, found.len() as int));
    } else {
        let to = ts[0].target();
        let next = if found.contains(to) {
            found
        } else {
            found.push(to)
        };
        let rest = ts.drop_first();
        assert forall|j: int| 0 <= j < rest.len() implies (#[trigger] rest[j]).target() < n by {
            assert(rest[j] == ts[j + 1]);
        }
        lemma_discover(next, rest, n);
        assert(next =~= all.subrange(0, next.len() as int));
        assert(found =~= all.subrange(0, found.len() as int));
        assert forall|j: int| 0 <= j < ts.len() implies all.contains(
            (#[trigger] ts[j]).target(),
        ) by {
            if j == 0 {
                if !found.contains(to) {
                    assert(next[found.len() as int] == to);
                }
                let i = next.index_of(to);
                assert(all[i] == next[i]);
            } else {
                assert(rest[j - 1] == ts[j]);
            }
        }
        assert forall|k: int| found.len() <= k < all.len() implies leads_to(
            ts,
            #[trigger] all[k],
        ) by {
            if k < next.len() {
                assert(all[k] == next[k]);
                assert(ts[0].target() == all[k]);
            } else {
                assert(leads_to(rest, all[k]));
                let j = choose|j: int|
                    0 <= j < rest.len() && (#[trigger] rest[j]).target() == all[k];
                assert(ts[j + 1] == rest[j]);
            }
        }
    }
}

/// Visiting the next state that was found keeps a traversal a traversal.
pub proof fn lemma_traversal_step(g: Graph, start: State, found: Seq<State>, visited: nat)
    requires
        traversal(g, start, found, visited),
        visited < found.len(),
    ensures
        visited < g.len(),
        found[visited as int] < g.len(),
        found.is_prefix_of(discover(found, g[found[visited as int] as int])),
        traversal(g, start, discover(found, g[found[visited as int] as int]), visited + 1),
{
    lemma_distinct_bounded(found, g.len());
    let state = found[visited as int];
    let ts = g[state as int];
    let all = discover(found, ts);
    lemma_discover(found, ts, g.len());
    assert(found =~= all.subrange(0, found.len() as int));
    assert forall|k: int| 0 <= k < all.len() implies (#[trigger] all[k]) < g.len() && reachable(
        g,
        start,
        all[k],
    ) by {
        if k < found.len() {
            assert(all[k] == found[k]);
        } else {
            assert(leads_to(ts, all[k]));
            assert(has_edge(g, state, all[k]));
            lemma_reachable_step(g, start, state, all[k]);
        }
    }
    assert forall|k: int, j: int|
        0 <= k < visited + 1 && 0 <= j < g[all[k] as int].len() implies all.contains(
        (#[trigger] g[all[k] as int][j]).target(),
    ) by {
        assert(all[k] == found[k]);
        if k < visited {
            let to = g[found[k] as int][j].target();
            assert(found.contains(to));
            let i = found.index_of(to);
            assert(all[i] == found[i]);
        } else {
            assert(ts[j] == g[all[k] as int][j]);
        }
    }
    assert(all[0] == found[0]);
}

/// A traversal ends with every target of every state it found among the
/// states found, and what was found before is still there, in its place.
pub proof fn lemma_traversal_end(g: Graph, start: State, found: Seq<State>, visited: nat)
    requires
        traversal(g, start, found, visited),
    ensures
        traversal(g, start, bfs_from(g, found, visited), bfs_from(g, found, visited).len()),
        found.is_prefix_of(bfs_from(g, found, visited)),
    decreases g.len() - visited,
{
    if visited >= found.len() {
        assert(found =~= found.subrange(0, found.len() as int));
    } else {
        lemma_traversal_step(g, start, found, visited);
        let next = discover(found, g[found[visited as int] as int]);
        lemma_traversal_end(g, start, next, visited + 1);
        let all = bfs_from(g, next, visited + 1);
        assert(found =~= all.subrange(0, found.len() as int));
    }
}

/// Where every target of every state of `all` is in `all`, so is every state
/// of a walk that starts in `all`.
proof fn lemma_walk_stays(g: Graph, start: State, all: Seq<State>, p: Seq<State>, k: int)
    requires
        traversal(g, start, all, all.len()),
        is_path(g, p),
        p[0] == start,
        0 <= k < p.len(),
    ensures
        all.contains(p[k]),
    decreases k,
{
    if k == 0 {
        assert(all[0] == p[0]);
    } else {
        lemma_walk_stays(g, start, all, p, k - 1);
        let i = all.index_of(p[k - 1]);
        assert(has_edge(g, p[k - 1], p[k - 1 + 1]));
        let j = choose|j: int|
            0 <= j < g[p[k - 1] as int].len() && (#[trigger] g[p[k - 1] as int][j]).target()
                == p[k];
        assert(all.contains(g[all[i] as int][j].target()));
    }
}

/// The breadth-first order from `start` lists exactly the states that can be
/// reached from `start`, each once, `start` first.
pub proof fn lemma_bfs_order(g: Graph, start: State)
    requires
        well_formed(g),
        start < g.len(),
    ensures
        bfs_order(g, start).len() > 0,
        bfs_order(g, start)[0] == start,
        bfs_order(g, start).no_duplicates(),
        bfs_order(g, start).len() <= g.len(),
        forall|s: State| bfs_order(g, start).contains(s) <==> reachable(g, start, s),
        forall|k: int|
            0 <= k < bfs_order(g, start).len() ==> (#[trigger] bfs_order(g, start)[k]) < g.len(),
{
    let first = seq![start];
    lemma_reachable_self(g, start);
    assert(traversal(g, start, first, 0));
    lemma_traversal_end(g, start, first, 0);
    let all = bfs_order(g, start);
    lemma_distinct_bounded(all, g.len());
    assert forall|s: State| all.contains(s) <==> reachable(g, start, s) by {
        if reachable(g, start, s) {
            let p = choose|p: Seq<State>| is_path(g, p) && p[0] == start && p.last() == s;
            lemma_walk_stays(g, start, all, p, p.len() - 1);
        }
    }
}

/// A state has a canonical number if and only if it can be reached from
/// `start`; the numbers are the positions in the breadth-first order, so they
/// are distinct, leave no gap, and `start` has number 0.
pub proof fn lemma_numbering(g: Graph, start: State)
    requires
        well_formed(g),
        start < g.len() <= usize::MAX,
    ensures
        numbering(g, start).len() == g.len(),
        numbering(g, start)[start as int] == Some(0usize),
        forall|s: int|
            0 <= s < g.len() ==> ((#[trigger] numbering(g, start)[s]) is Some <==> reachable(
                g,
                start,
                s as State,
            )),
        forall|s: int|
            #![trigger numbering(g, start)[s]]
            0 <= s < g.len() ==> (numbering(g, start)[s] matches Some(id) ==> id < bfs_order(
                g,
                start,
            ).len() && bfs_order(g, start)[id as int] == s),
        forall|k: int|
            0 <= k < bfs_order(g, start).len() ==> numbering(g, start)[(#[trigger] bfs_order(
                g,
                start,
            )[k]) as int] == Some(k as State),
{
    lemma_bfs_order(g, start);
    let order = bfs_order(g, start);
    assert(order.contains(start));
    assert forall|k: int| 0 <= k < order.len() implies numbering(g, start)[(#[trigger] order[k])
        as int] == Some(k as State) by {
        assert(order.contains(order[k]));
    }
    assert forall|s: int|
        #![trigger numbering(g, start)[s]]
        0 <= s < g.len() implies (numbering(g, start)[s] matches Some(id) ==> id < order.len()
        && order[id as int] == s) by {
        if order.contains(s as State) {
            let i = order.index_of(s as State);
            assert(order[i] == s);
        }
    }
}

/// Numbering an automaton whose states are already numbered in breadth-first
/// order changes nothing: each state that can be reached keeps its number.
pub proof fn lemma_canonical_numbering_is_identity(g: Graph, start: State)
    requires
        well_formed(g),
        start < g.len() <= usize::MAX,
        forall|i: int|
            0 <= i < bfs_order(g, start).len() ==> (#[trigger] bfs_order(g, start)[i]) == i,
    ensures
        forall|s: int|
            0 <= s < g.len() ==> #[trigger] numbering(g, start)[s] == if s < bfs_order(
                g,
                start,
            ).len() {
                Some(s as State)
            } else {
                None
            },
{
    lemma_numbering(g, start);
    let order = bfs_order(g, start);
    assert forall|s: int| 0 <= s < g.len() implies #[trigger] numbering(g, start)[s] == if s
        < order.len() {
        Some(s as State)
    } else {
        None
    } by {
        if s < order.len() {
            assert(order[s] == s);
        } else if numbering(g, start)[s] is Some {
            let id = numbering(g, start)[s]->0;
            assert(order[id as int] == id);
        }
    }
}

/// `t` with the name of its target changed by `f`.
pub open spec fn renamed_transition(t: Transition, f: spec_fn(State) -> State) -> Transition {
    match t {
        Transition::Goto(to) => Transition::Goto(f(to)),
        Transition::Consume(c, to) => Transition::Consume(c, f(to)),
    }
}

/// `ts`, in their order, with the names of their targets changed by `f`.
pub open spec fn renamed_transitions(ts: Seq<Transition>, f: spec_fn(State) -> State) -> Seq<
    Transition,
> {
    Seq::new(ts.len(), |j: int| renamed_transition(ts[j], f))
}

/// As far as it can be reached from `start`, `g` is `h` under other names:
/// `f` gives each state of `g` that can be reached a state of `h` of its own,
/// which has the same transitions in the same order.
pub open spec fn same_under_renaming(
    g: Graph,
    start: State,
    h: Graph,
    f: spec_fn(State) -> State,
) -> bool {
    &&& forall|s: State| #[trigger]
        reachable(g, start, s) ==> f(s) < h.len() && h[f(s) as int] == renamed_transitions(
            g[s as int],
            f,
        )
    &&& forall|a: State, b: State|
        reachable(g, start, a) && reachable(g, start, b) && #[trigger] f(a) == #[trigger] f(b)
            ==> a == b
}

/// Discovering targets under other names finds the same states under their
/// other names, in the same order.
proof fn lemma_discover_renamed(
    g: Graph,
    start: State,
    h: Graph,
    f: spec_fn(State) -> State,
    found: Seq<State>,
    ts: Seq<Transition>,
)
    requires
        same_under_renaming(g, start, h, f),
        forall|k: int| 0 <= k < found.len() ==> reachable(g, start, #[trigger] found[k]),
        forall|j: int| 0 <= j < ts.len() ==> reachable(g, start, (#[trigger] ts[j]).target()),
    ensures
        discover(found.map_values(f), renamed_transitions(ts, f)) == discover(
            found,
            ts,
        ).map_values(f),
    decreases ts.len(),
{
    let found2 = found.map_values(f);
    let ts2 = renamed_transitions(ts, f);
    if ts.len() > 0 {
        let to = ts[0].target();
        assert(reachable(g, start, to));
        assert(ts2[0].target() == f(to));
        let next = if found.contains(to) {
            found
        } else {
            found.push(to)
        };
        let next2 = if found2.contains(f(to)) {
            found2
        } else {
            found2.push(f(to))
        };
        if found.contains(to) {
            let i = found.index_of(to);
            assert(found2[i] == f(to));
        }
        if found2.contains(f(to)) {
            let i = found2.index_of(f(to));
            assert(reachable(g, start, found[i]));
            assert(f(found[i]) == f(to));
        }
        assert(next2 =~= next.map_values(f));
        assert(ts2.drop_first() =~= renamed_transitions(ts.drop_first(), f));
        assert forall|j: int| 0 <= j < ts.drop_first().len() implies reachable(
            g,
            start,
            (#[trigger] ts.drop_first()[j]).target(),
        ) by {
            assert(ts.drop_first()[j] == ts[j + 1]);
        }
        lemma_discover_renamed(g, start, h, f, next, ts.drop_first());
    }
}

/// A traversal under other names visits the same states under their other
/// names, in the same order.
proof fn lemma_bfs_renamed(
    g: Graph,
    start: State,
    h: Graph,
    f: spec_fn(State) -> State,
    found: Seq<State>,
    visited: nat,
)
    requires
        traversal(g, start, found, visited),
        same_under_renaming(g, start, h, f),
    ensures
        bfs_from(h, found.map_values(f), visited) == bfs_from(g, found, visited).map_values(f),
    decreases g.len() - visited,
{
    let found2 = found.map_values(f);
    if visited < found.len() {
        lemma_traversal_step(g, start, found, visited);
        let state = found[visited as int];
        let ts = g[state as int];
        assert(reachable(g, start, state));
        assert forall|i: int, j: int|
            0 <= i < found2.len() && 0 <= j < found2.len() && i != j implies found2[i]
            != found2[j] by {
            assert(reachable(g, start, found[i]) && reachable(g, start, found[j]));
            assert(f(found[i]) == found2[i] && f(found[j]) == found2[j]);
        }
        assert forall|k: int| 0 <= k < found2.len() implies (#[trigger] found2[k]) < h.len() by {
            assert(reachable(g, start, found[k]));
        }
        lemma_distinct_bounded(found2, h.len());
        assert forall|j: int| 0 <= j < ts.len() implies reachable(
            g,
            start,
            (#[trigger] ts[j]).target(),
        ) by {
            assert(leads_to(ts, ts[j].target()));
            lemma_reachable_step(g, start, state, ts[j].target());
        }
        lemma_discover_renamed(g, start, h, f, found, ts);
        lemma_bfs_renamed(g, start, h, f, discover(found, ts), visited + 1);
    }
}

/// The canonical numbers do not depend on the names of the states, only on
/// what can be reached from the start state and on the order of the
/// transitions: under other names, the breadth-first order is the same
/// order of the same states, and each state has the same canonical number.
pub proof fn lemma_numbering_ignores_names(
    g: Graph,
    start: State,
    h: Graph,
    f: spec_fn(State) -> State,
)
    requires
        well_formed(g),
        start < g.len(),
        same_under_renaming(g, start, h, f),
    ensures
        bfs_order(h, f(start)) == bfs_order(g, start).map_values(f),
        forall|s: State|
            reachable(g, start, s) ==> #[trigger] canonical_id(bfs_order(h, f(start)), f(s))
                == canonical_id(bfs_order(g, start), s),
{
    let first = seq![start];
    lemma_reachable_self(g, start);
    assert(traversal(g, start, first, 0));
    assert(first.map_values(f) =~= seq![f(start)]);
    lemma_bfs_renamed(g, start, h, f, first, 0);
    lemma_bfs_order(g, start);
    let order = bfs_order(g, start);
    let order2 = bfs_order(h, f(start));
    assert forall|s: State| reachable(g, start, s) implies #[trigger] canonical_id(order2, f(s))
        == canonical_id(order, s) by {
        let i = order.index_of(s);
        assert(order.contains(s));
        assert(order2[i] == f(s));
        let i2 = order2.index_of(f(s));
        assert(reachable(g, start, order[i2]));
        assert(f(order[i2]) == f(s));
    }
}

/// The canonical form of an automaton: the states that can be reached from
/// `start`, each under its canonical number, with their transitions.
pub open spec fn canonical(g: Graph, start: State) -> Graph {
    let order = bfs_order(g, start);
    Seq::new(
        order.len(),
        |i: int| renamed_transitions(g[order[i] as int], |s: State| order.index_of(s) as State),
    )
}

/// Canonical numbering is idempotent: in the canonical form of an automaton
/// every state has itself as its canonical number.
pub proof fn lemma_canonical_is_idempotent(g: Graph, start: State)
    requires
        well_formed(g),
        start < g.len() <= usize::MAX,
    ensures
        canonical(g, start).len() == bfs_order(g, start).len(),
        forall|i: int|
            0 <= i < canonical(g, start).len() ==> #[trigger] numbering(canonical(g, start), 0)[i]
                == Some(i as State),
{
    lemma_bfs_order(g, start);
    let order = bfs_order(g, start);
    let h = canonical(g, start);
    let f = |s: State| order.index_of(s) as State;
    assert forall|s: State| #[trigger] reachable(g, start, s) implies f(s) < h.len() && h[f(
        s,
    ) as int] == renamed_transitions(g[s as int], f) by {
        assert(order.contains(s));
        assert(order[order.index_of(s)] == s);
    }
    assert forall|a: State, b: State|
        reachable(g, start, a) && reachable(g, start, b) && #[trigger] f(a) == #[trigger] f(
            b,
        ) implies a == b by {
        assert(order.contains(a) && order.contains(b));
        assert(order[order.index_of(a)] == a);
        assert(order[order.index_of(b)] == b);
    }
    lemma_numbering_ignores_names(g, start, h, f);
    assert(order.contains(start));
    assert(f(start) == 0);
    let order2 = bfs_order(h, 0);
    assert forall|i: int| 0 <= i < h.len() implies #[trigger] numbering(h, 0)[i] == Some(
        i as State,
    ) by {
        assert(order.contains(order[i]));
        assert(order2[i] == f(order[i]));
        assert(order2[i] == i);
        assert(order2.contains(i as State));
        let k = order2.index_of(i as State);
        assert(order2[k] == f(order[k]));
        assert(order.contains(order[k]));
    }
}

/// Numbers the states of `nfa` in the order in which a breadth-first
/// traversal from `start` visits them, starting at 0, where the transitions
/// of a state are followed in the order in which they were added. A state
/// that cannot be reached from `start` gets no number.
pub fn renumber_states(nfa: &Nfa, start: State) -> (mapping: Vec<Option<State>>)
    requires
        nfa.wf(),
        start < nfa@.len(),
    ensures
        mapping@ == numbering(nfa@, start),
        mapping@[start as int] == Some(0usize),
        forall|s: int|
            0 <= s < nfa@.len() ==> ((#[trigger] mapping@[s]) is Some <==> reachable(
                nfa@,
                start,
                s as State,
            )),
{
    let n = nfa.num_states();
    let mut mapping: Vec<Option<State>> = vec![None; n];
    let mut next_id: usize = 0;
    let mut queued: Vec<bool> = vec![false; n];
    let mut queue: VecDeque<State> = VecDeque::new();
    queue.push_back(start);
    queued.set(start, true);
    let ghost mut found: Seq<State> = seq![start];
    proof {
        lemma_reachable_self(nfa@, start);
        assert(queue@ =~= found.subrange(0, 1));
        assert forall|s: int| 0 <= s < n implies (queued@[s] <==> found.contains(s as State)) by {
            if s == start {
                assert(found[0] == start);
            }
        }
    }
    while queue.len() > 0
        invariant
            n == nfa@.len(),
            mapping@.len() == n,
            queued@.len() == n,
            traversal(nfa@, start, found, next_id as nat),
            queue@ == found.subrange(next_id as int, found.len() as int),
            forall|s: int| 0 <= s < n ==> (#[trigger] queued@[s] <==> found.contains(s as State)),
            forall|k: int|
                0 <= k < next_id ==> mapping@[(#[trigger] found[k]) as int] == Some(k as State),
            forall|s: int|
                #![trigger mapping@[s]]
                0 <= s < n ==> (mapping@[s] matches Some(id) ==> id < next_id && found[id as int]
                    == s),
            bfs_from(nfa@, found, next_id as nat) == bfs_order(nfa@, start),
        decreases n - next_id,
    {
        let state = queue.pop_front().unwrap();
        let ghost found0 = found;
        proof {
            lemma_traversal_step(nfa@, start, found0, next_id as nat);
            assert(state == found0[next_id as int]);
        }
        let id = next_id;
        next_id += 1;
        mapping.set(state, Some(id));
        let ts = nfa.transitions(state);
        let mut j: usize = 0;
        proof {
            assert(ts@.skip(0) =~= ts@);
            assert(queue@ =~= found.subrange(next_id as int, found.len() as int));
        }
        while j < ts.len()
            invariant
                n == nfa@.len(),
                nfa.wf(),
                queued@.len() == n,
                state < n,
                ts@ == nfa@[state as int],
                j <= ts.len(),
                next_id <= found.len(),
                found0.len() <= found.len(),
                queue@ == found.subrange(next_id as int, found.len() as int),
                forall|s: int|
                    0 <= s < n ==> (#[trigger] queued@[s] <==> found.contains(s as State)),
                discover(found, ts@.skip(j as int)) == discover(found0, ts@),
            decreases ts.len() - j,
        {
            let target = ts[j].to();
            let ghost before = found;
            proof {
                assert(nfa@[state as int][j as int].target() < n);
                assert(ts@.skip(j as int)[0] == ts@[j as int]);
                assert(ts@.skip(j as int).drop_first() =~= ts@.skip(j + 1));
            }
            if !queued[target] {
                queue.push_back(target);
                queued.set(target, true);
                proof {
                    found = found.push(target);
                    assert(queue@ =~= found.subrange(next_id as int, found.len() as int));
                    assert forall|s: int| 0 <= s < n implies (#[trigger] queued@[s]
                        <==> found.contains(s as State)) by {
                        if before.contains(s as State) {
                            let i = before.index_of(s as State);
                            assert(found[i] == s);
                        }
                        if s == target {
                            assert(found[before.len() as int] == target);
                        }
                    }
                }
            }
            j += 1;
        }
        proof {
            assert(ts@.skip(j as int).len() == 0);
            assert(found == discover(found0, nfa@[state as int]));
            assert forall|k: int| 0 <= k < next_id implies mapping@[(#[trigger] found[k]) as int]
                == Some(k as State) by {
                assert(found[k] == found0[k]);
            }
            assert forall|s: int|
                #![trigger mapping@[s]]
                0 <= s < n implies (mapping@[s] matches Some(i) ==> i < next_id && found[i as int]
                == s) by {
                if mapping@[s] is Some {
                    let i = mapping@[s]->0;
                    assert(found[i as int] == found0[i as int]);
                }
            }
        }
    }
    proof {
        assert(found == bfs_order(nfa@, start));
        assert forall|s: int| 0 <= s < n implies mapping@[s] == canonical_id(found, s as State) by {
            if found.contains(s as State) {
                let i = found.index_of(s as State);
                assert(mapping@[found[i] as int] == Some(i as State));
            }
        }
        assert(mapping@ =~= numbering(nfa@, start));
        lemma_numbering(nfa@, start);
    }
    mapping
}

} // verus!
