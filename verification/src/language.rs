//! What a tree matches, what an automaton accepts, and the law that relates
//! the two: the fragment built for a tree accepts every string that the tree
//! matches.
//!
//! The converse does not hold of every tree. Fragments share their entry and
//! exit states, so a walk may leave one fragment and go on in another: built
//! between the same two states, `a*` and `b` accept `ab`, which `a*|b` does
//! not match.

use vstd::prelude::*;
use crate::builder::{
    built, built_alternation, built_concat, extends, fresh_states, fresh_states_concat,
    fresh_states_in, lemma_built, lemma_built_alternation, lemma_built_concat,
    lemma_steps_extend,
};
use crate::nfa::{add_edge, add_state, Graph, State, Transition};
use crate::syntax::{
    first_unsupported_in, lemma_supported_operands, supported, RepetitionKind, Syntax,
};

verus! {

/// The tree `r` matches the string `w`. A construct that the compiler does
/// not handle matches nothing here.
pub open spec fn in_language(r: Syntax, w: Seq<char>) -> bool
    decreases r, w.len(), 0nat,
{
    match r {
        Syntax::Empty => w.len() == 0,
        Syntax::Literal(c) => w.len() == 1 && w[0] == c,
        Syntax::Concat(xs) => in_concat_language(xs, w),
        Syntax::Alternation(xs) => exists|i: int|
            0 <= i < xs.len() && in_language(#[trigger] xs[i], w),
        Syntax::Repetition(kind, x) => match kind {
            RepetitionKind::ZeroOrOne => w.len() == 0 || in_language(*x, w),
            RepetitionKind::ZeroOrMore => in_star_language(*x, w),
            RepetitionKind::OneOrMore => exists|k: int|
                0 <= k <= w.len() && in_language(*x, #[trigger] w.take(k)) && in_star_language(
                    *x,
                    w.skip(k),
                ),
            RepetitionKind::Range => false,
        },
        Syntax::Group(x) => in_language(*x, w),
        Syntax::Class => false,
        Syntax::Anchor => false,
        Syntax::WordBoundary => false,
    }
}

/// `w` can be cut into one piece for each tree of `xs`, in order, such that
/// each tree matches its piece.
pub open spec fn in_concat_language(xs: Seq<Syntax>, w: Seq<char>) -> bool
    decreases xs, w.len(), 0nat,
{
    if xs.len() == 0 {
        w.len() == 0
    } else {
        exists|k: int|
            0 <= k <= w.len() && in_language(xs[0], #[trigger] w.take(k)) && in_concat_language(
                xs.drop_first(),
                w.skip(k),
            )
    }
}

/// `w` can be cut into pieces, none of them empty, such that `x` matches
/// each piece.
pub open spec fn in_star_language(x: Syntax, w: Seq<char>) -> bool
    decreases x, w.len(), 1nat,
{
    w.len() == 0 || exists|k: int|
        0 < k <= w.len() && in_language(x, #[trigger] w.take(k)) && in_star_language(
            x,
            w.skip(k),
        )
}

/// A walk of `n` transitions leads from `from` to `to` and consumes exactly
/// the characters of `w`, in order.
pub open spec fn walks(g: Graph, from: State, to: State, w: Seq<char>, n: nat) -> bool
    decreases n, 0nat,
{
    if n == 0 {
        from == to && w.len() == 0
    } else {
        from < g.len() && exists|j: int|
            0 <= j < g[from as int].len() && walks_after(
                g,
                #[trigger] g[from as int][j],
                to,
                w,
                (n - 1) as nat,
            )
    }
}

/// The transition `t`, which consumes the first character of `w` if it
/// consumes any, and then a walk of `n` transitions that consumes the rest,
/// lead to `to`.
pub open spec fn walks_after(g: Graph, t: Transition, to: State, w: Seq<char>, n: nat) -> bool
    decreases n, 1nat,
{
    match t {
        Transition::Goto(next) => walks(g, next, to, w, n),
        Transition::Consume(c, next) => w.len() > 0 && w[0] == c && walks(
            g,
            next,
            to,
            w.drop_first(),
            n,
        ),
    }
}

/// Entered at `from`, the automaton can consume `w` and arrive at `to`.
pub open spec fn accepts(g: Graph, from: State, to: State, w: Seq<char>) -> bool {
    exists|n: nat| walks(g, from, to, w, n)
}

/// A walk stays a walk when the automaton grows.
pub proof fn lemma_walk_extends(
    g: Graph,
    h: Graph,
    from: State,
    to: State,
    w: Seq<char>,
    n: nat,
)
    requires
        extends(g, h),
        walks(g, from, to, w, n),
    ensures
        walks(h, from, to, w, n),
    decreases n,
{
    if n > 0 {
        let j = choose|j: int|
            0 <= j < g[from as int].len() && walks_after(
                g,
                #[trigger] g[from as int][j],
                to,
                w,
                (n - 1) as nat,
            );
        let t = g[from as int][j];
        assert(g[from as int].is_prefix_of(h[from as int]));
        assert(h[from as int][j] == t);
        match t {
            Transition::Goto(next) => {
                lemma_walk_extends(g, h, next, to, w, (n - 1) as nat);
            },
            Transition::Consume(c, next) => {
                lemma_walk_extends(g, h, next, to, w.drop_first(), (n - 1) as nat);
            },
        }
        assert(walks_after(h, h[from as int][j], to, w, (n - 1) as nat));
    }
}

/// Two walks, the second from where the first ends, make one walk that
/// consumes what the first consumes and then what the second consumes.
pub proof fn lemma_walk_concat(
    g: Graph,
    a: State,
    b: State,
    c: State,
    u: Seq<char>,
    v: Seq<char>,
    n: nat,
    m: nat,
)
    requires
        walks(g, a, b, u, n),
        walks(g, b, c, v, m),
    ensures
        walks(g, a, c, u + v, n + m),
    decreases n,
{
    if n == 0 {
        assert(u + v =~= v);
    } else {
        let j = choose|j: int|
            0 <= j < g[a as int].len() && walks_after(
                g,
                #[trigger] g[a as int][j],
                b,
                u,
                (n - 1) as nat,
            );
        match g[a as int][j] {
            Transition::Goto(next) => {
                lemma_walk_concat(g, next, b, c, u, v, (n - 1) as nat, m);
            },
            Transition::Consume(x, next) => {
                lemma_walk_concat(g, next, b, c, u.drop_first(), v, (n - 1) as nat, m);
                assert((u + v).drop_first() =~= u.drop_first() + v);
            },
        }
        assert(walks_after(g, g[a as int][j], c, u + v, (n + m - 1) as nat));
    }
}

/// The last transition of a state is a walk of one transition.
pub proof fn lemma_walk_last_edge(g: Graph, from: State, t: Transition, w: Seq<char>)
    requires
        from < g.len(),
        t.target() < g.len(),
        match t {
            Transition::Goto(_) => w.len() == 0,
            Transition::Consume(c, _) => w.len() == 1 && w[0] == c,
        },
    ensures
        walks(add_edge(g, from as int, t), from, t.target(), w, 1),
{
    let h = add_edge(g, from as int, t);
    let j = g[from as int].len() as int;
    assert(h[from as int][j] == t);
    assert(walks(h, t.target(), t.target(), Seq::<char>::empty(), 0));
    match t {
        Transition::Goto(_) => {
            assert(w =~= Seq::<char>::empty());
        },
        Transition::Consume(_, _) => {
            assert(w.drop_first() =~= Seq::<char>::empty());
        },
    }
    assert(walks_after(h, h[from as int][j], t.target(), w, 0));
}

/// The walk that the law below promises, for a tree.
proof fn lemma_walk_for(g: Graph, r: Syntax, start: State, end: State, w: Seq<char>) -> (n: nat)
    requires
        start < g.len(),
        end < g.len(),
        g.len() + fresh_states(r) <= usize::MAX,
        supported(r),
        in_language(r, w),
    ensures
        walks(built(g, r, start, end), start, end, w, n),
    decreases r, w.len(), 0nat,
{
    let h = built(g, r, start, end);
    match r {
        Syntax::Empty => {
            lemma_walk_last_edge(g, start, Transition::Goto(end), w);
            1
        },
        Syntax::Literal(c) => {
            lemma_walk_last_edge(g, start, Transition::Consume(c, end), w);
            1
        },
        Syntax::Concat(xs) => lemma_walk_for_concat(g, xs, start, end, w),
        Syntax::Alternation(xs) => {
            let i = choose|i: int| 0 <= i < xs.len() && in_language(#[trigger] xs[i], w);
            lemma_walk_for_alternation(g, xs, start, end, i, w)
        },
        Syntax::Repetition(kind, x) => {
            match kind {
                RepetitionKind::ZeroOrOne => {
                    lemma_built(g, *x, start, end);
                    let inner = built(g, *x, start, end);
                    lemma_steps_extend(inner, start as int, Transition::Goto(end));
                    if in_language(*x, w) {
                        let n = lemma_walk_for(g, *x, start, end, w);
                        lemma_walk_extends(inner, h, start, end, w, n);
                        n
                    } else {
                        lemma_walk_last_edge(inner, start, Transition::Goto(end), w);
                        1
                    }
                },
                RepetitionKind::ZeroOrMore => {
                    lemma_built(g, *x, start, start);
                    let inner = built(g, *x, start, start);
                    lemma_steps_extend(inner, start as int, Transition::Goto(end));
                    let n = lemma_walk_for_star(g, *x, start, w);
                    lemma_walk_extends(inner, h, start, start, w, n);
                    lemma_walk_last_edge(inner, start, Transition::Goto(end), Seq::empty());
                    lemma_walk_concat(h, start, start, end, w, Seq::empty(), n, 1);
                    assert(w + Seq::<char>::empty() =~= w);
                    n + 1
                },
                RepetitionKind::OneOrMore => {
                    lemma_built(g, *x, start, end);
                    let inner = built(g, *x, start, end);
                    lemma_steps_extend(inner, end as int, Transition::Goto(start));
                    let k = choose|k: int|
                        0 <= k <= w.len() && in_language(*x, #[trigger] w.take(k))
                            && in_star_language(*x, w.skip(k));
                    let n = lemma_walk_for(g, *x, start, end, w.take(k));
                    lemma_walk_extends(inner, h, start, end, w.take(k), n);
                    let m = lemma_walk_for_plus(g, *x, start, end, w.skip(k));
                    lemma_walk_concat(h, start, end, end, w.take(k), w.skip(k), n, m);
                    assert(w.take(k) + w.skip(k) =~= w);
                    n + m
                },
                RepetitionKind::Range => 0,
            }
        },
        Syntax::Group(x) => lemma_walk_for(g, *x, start, end, w),
        _ => 0,
    }
}

/// The walk for the operands of a concatenation.
proof fn lemma_walk_for_concat(
    g: Graph,
    xs: Seq<Syntax>,
    start: State,
    end: State,
    w: Seq<char>,
) -> (n: nat)
    requires
        start < g.len(),
        end < g.len(),
        g.len() + fresh_states_concat(xs) <= usize::MAX,
        first_unsupported_in(xs) is None,
        in_concat_language(xs, w),
    ensures
        walks(built_concat(g, xs, start, end), start, end, w, n),
    decreases xs, w.len(), 0nat,
{
    lemma_supported_operands(xs);
    if xs.len() == 0 {
        lemma_walk_last_edge(g, start, Transition::Goto(end), w);
        1
    } else {
        let k = choose|k: int|
            0 <= k <= w.len() && in_language(xs[0], #[trigger] w.take(k)) && in_concat_language(
                xs.drop_first(),
                w.skip(k),
            );
        let rest = xs.drop_first();
        assert(w.take(k) + w.skip(k) =~= w);
        if xs.len() == 1 {
            assert(fresh_states_in(rest) == 0);
            assert(w.take(k) =~= w);
            lemma_walk_for(g, xs[0], start, end, w)
        } else {
            let mid = g.len() as State;
            let wider = add_state(g);
            let first = built(wider, xs[0], start, mid);
            let all = built_concat(first, rest, mid, end);
            lemma_built(wider, xs[0], start, mid);
            lemma_built_concat(first, rest, mid, end);
            let n = lemma_walk_for(wider, xs[0], start, mid, w.take(k));
            lemma_walk_extends(first, all, start, mid, w.take(k), n);
            let m = lemma_walk_for_concat(first, rest, mid, end, w.skip(k));
            lemma_walk_concat(all, start, mid, end, w.take(k), w.skip(k), n, m);
            n + m
        }
    }
}

/// The walk through the branch `i` of an alternation.
proof fn lemma_walk_for_alternation(
    g: Graph,
    xs: Seq<Syntax>,
    start: State,
    end: State,
    i: int,
    w: Seq<char>,
) -> (n: nat)
    requires
        start < g.len(),
        end < g.len(),
        g.len() + fresh_states_in(xs) <= usize::MAX,
        first_unsupported_in(xs) is None,
        0 <= i < xs.len(),
        in_language(xs[i], w),
    ensures
        walks(built_alternation(g, xs, start, end), start, end, w, n),
    decreases xs, w.len(), 0nat,
{
    lemma_supported_operands(xs);
    let rest = xs.drop_first();
    let first = built(g, xs[0], start, end);
    let all = built_alternation(first, rest, start, end);
    lemma_built(g, xs[0], start, end);
    lemma_built_alternation(first, rest, start, end);
    if i == 0 {
        let n = lemma_walk_for(g, xs[0], start, end, w);
        lemma_walk_extends(first, all, start, end, w, n);
        n
    } else {
        assert(rest[i - 1] == xs[i]);
        lemma_walk_for_alternation(first, rest, start, end, i - 1, w)
    }
}

/// The walk through the loop of `x*`: from `start` round to `start`.
proof fn lemma_walk_for_star(g: Graph, x: Syntax, start: State, w: Seq<char>) -> (n: nat)
    requires
        start < g.len(),
        g.len() + fresh_states(x) <= usize::MAX,
        supported(x),
        in_star_language(x, w),
    ensures
        walks(built(g, x, start, start), start, start, w, n),
    decreases x, w.len(), 1nat,
{
    let h = built(g, x, start, start);
    if w.len() == 0 {
        0
    } else {
        let k = choose|k: int|
            0 < k <= w.len() && in_language(x, #[trigger] w.take(k)) && in_star_language(
                x,
                w.skip(k),
            );
        let n = lemma_walk_for(g, x, start, start, w.take(k));
        let m = lemma_walk_for_star(g, x, start, w.skip(k));
        lemma_walk_concat(h, start, start, start, w.take(k), w.skip(k), n, m);
        assert(w.take(k) + w.skip(k) =~= w);
        n + m
    }
}

/// The walk through the loop of `x+`: from `end` back to `start` and
/// through `x` to `end` again.
proof fn lemma_walk_for_plus(
    g: Graph,
    x: Syntax,
    start: State,
    end: State,
    w: Seq<char>,
) -> (n: nat)
    requires
        start < g.len(),
        end < g.len(),
        g.len() + fresh_states(x) <= usize::MAX,
        supported(x),
        in_star_language(x, w),
    ensures
        walks(
            add_edge(built(g, x, start, end), end as int, Transition::Goto(start)),
            end,
            end,
            w,
            n,
        ),
    decreases x, w.len(), 1nat,
{
    let inner = built(g, x, start, end);
    let h = add_edge(inner, end as int, Transition::Goto(start));
    if w.len() == 0 {
        0
    } else {
        lemma_built(g, x, start, end);
        lemma_steps_extend(inner, end as int, Transition::Goto(start));
        let k = choose|k: int|
            0 < k <= w.len() && in_language(x, #[trigger] w.take(k)) && in_star_language(
                x,
                w.skip(k),
            );
        lemma_walk_last_edge(inner, end, Transition::Goto(start), Seq::empty());
        let n = lemma_walk_for(g, x, start, end, w.take(k));
        lemma_walk_extends(inner, h, start, end, w.take(k), n);
        lemma_walk_concat(h, end, start, end, Seq::empty(), w.take(k), 1, n);
        assert(Seq::<char>::empty() + w.take(k) =~= w.take(k));
        let m = lemma_walk_for_plus(g, x, start, end, w.skip(k));
        lemma_walk_concat(h, end, end, end, w.take(k), w.skip(k), n + 1, m);
        assert(w.take(k) + w.skip(k) =~= w);
        n + 1 + m
    }
}

/// The fragment built for a tree accepts, from its entry to its exit, every
/// string that the tree matches.
pub proof fn lemma_accepts_language(g: Graph, r: Syntax, start: State, end: State, w: Seq<char>)
    requires
        start < g.len(),
        end < g.len(),
        g.len() + fresh_states(r) <= usize::MAX,
        supported(r),
        in_language(r, w),
    ensures
        accepts(built(g, r, start, end), start, end, w),
{
    let n = lemma_walk_for(g, r, start, end, w);
}

} // verus!
