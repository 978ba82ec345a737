//! The description of an automaton as a directed graph in DOT, the language
//! of Graphviz.
//!
//! A state is drawn under the number that it has in the automaton and
//! labelled with its canonical number. A state without a canonical number is
//! left out. An epsilon move is labelled with a blank.

use vstd::prelude::*;
use vstd::string::*;
use crate::nfa::{Graph, Nfa, State, Transition};

verus! {

/// The character for a decimal digit.
pub open spec fn digit(d: nat) -> char {
    if d == 0 {
        '0'
    } else if d == 1 {
        '1'
    } else if d == 2 {
        '2'
    } else if d == 3 {
        '3'
    } else if d == 4 {
        '4'
    } else if d == 5 {
        '5'
    } else if d == 6 {
        '6'
    } else if d == 7 {
        '7'
    } else if d == 8 {
        '8'
    } else {
        '9'
    }
}

/// The decimal numeral for `n`, without leading zeros.
pub open spec fn decimal(n: nat) -> Seq<char>
    decreases n,
{
    if n < 10 {
        seq![digit(n)]
    } else {
        decimal(n / 10).push(digit(n % 10))
    }
}

/// The line that labels `state` with its canonical number.
pub open spec fn label_line(state: nat, id: nat) -> Seq<char> {
    decimal(state) + " [label=\""@ + decimal(id) + "\"]\n"@
}

/// The line that gives `state` its shape: a double circle for the accept
/// state, a circle for any other.
pub open spec fn shape_line(state: nat, accepting: bool) -> Seq<char> {
    decimal(state) + if accepting {
        " [shape=doublecircle]\n"@
    } else {
        " [shape=circle]\n"@
    }
}

/// The line for the transition `t` out of `from`.
pub open spec fn edge_line(from: nat, t: Transition) -> Seq<char> {
    match t {
        Transition::Goto(to) => decimal(from) + " -> "@ + decimal(to as nat) + " [label=\" \"]\n"@,
        Transition::Consume(c, to) => decimal(from) + " -> "@ + decimal(to as nat) + " [label=\""@
            + seq![c] + "\"]\n"@,
    }
}

/// The lines for the transitions `ts` out of `from`, in their order.
pub open spec fn edge_lines(from: nat, ts: Seq<Transition>) -> Seq<char>
    decreases ts.len(),
{
    if ts.len() == 0 {
        Seq::empty()
    } else {
        edge_lines(from, ts.drop_last()) + edge_line(from, ts.last())
    }
}

/// The label lines of the first `upto` states, for each that has a canonical
/// number.
pub open spec fn label_lines(mapping: Seq<Option<State>>, upto: nat) -> Seq<char>
    decreases upto,
{
    if upto == 0 {
        Seq::empty()
    } else {
        let state = (upto - 1) as nat;
        label_lines(mapping, state) + match mapping[state as int] {
            Some(id) => label_line(state, id as nat),
            None => Seq::empty(),
        }
    }
}

/// The shape line and the transitions of each of the first `upto` states
/// that has a canonical number.
pub open spec fn state_lines(
    g: Graph,
    mapping: Seq<Option<State>>,
    accept: State,
    upto: nat,
) -> Seq<char>
    decreases upto,
{
    if upto == 0 {
        Seq::empty()
    } else {
        let state = (upto - 1) as nat;
        state_lines(g, mapping, accept, state) + match mapping[state as int] {
            Some(_) => shape_line(state, state == accept) + edge_lines(state, g[state as int]),
            None => Seq::empty(),
        }
    }
}

/// The description of `g` as a directed graph: a heading, a node without
/// a shape or a name, the label of each state, an arrow from the nameless node
/// to `start`, then each state's shape followed by its transitions.
pub open spec fn dot_text(
    g: Graph,
    mapping: Seq<Option<State>>,
    start: State,
    accept: State,
) -> Seq<char> {
    "digraph {\n"@ + "rankdir=LR\n"@ + "\"\" [shape=none]\n"@ + label_lines(mapping, g.len())
        + "\"\" -> "@ + decimal(start as nat) + "\n"@ + state_lines(g, mapping, accept, g.len())
        + "}\n"@
}

/// The description reads of the mapping only the entries of the states of
/// `g`: two mappings that agree on those give the same text.
pub proof fn lemma_dot_text_reads_states_only(
    g: Graph,
    a: Seq<Option<State>>,
    b: Seq<Option<State>>,
    start: State,
    accept: State,
    upto: nat,
)
    requires
        forall|s: int| 0 <= s < upto ==> a[s] == b[s],
    ensures
        label_lines(a, upto) == label_lines(b, upto),
        state_lines(g, a, accept, upto) == state_lines(g, b, accept, upto),
        upto == g.len() ==> dot_text(g, a, start, accept) == dot_text(g, b, start, accept),
    decreases upto,
{
    if upto > 0 {
        lemma_dot_text_reads_states_only(g, a, b, start, accept, (upto - 1) as nat);
    }
}

/// `String::push` appends the character to the end of the string.
pub assume_specification[ String::push ](s: &mut String, c: char)
    ensures
        final(s)@ == old(s)@.push(c),
;

fn digit_char(d: usize) -> (c: char)
    requires
        d < 10,
    ensures
        c == digit(d as nat),
{
    if d == 0 {
        '0'
    } else if d == 1 {
        '1'
    } else if d == 2 {
        '2'
    } else if d == 3 {
        '3'
    } else if d == 4 {
        '4'
    } else if d == 5 {
        '5'
    } else if d == 6 {
        '6'
    } else if d == 7 {
        '7'
    } else if d == 8 {
        '8'
    } else {
        '9'
    }
}

fn push_decimal(out: &mut String, n: usize)
    ensures
        final(out)@ == old(out)@ + decimal(n as nat),
    decreases n,
{
    if n >= 10 {
        push_decimal(out, n / 10);
    }
    out.push(digit_char(n % 10));
    assert(out@ =~= old(out)@ + decimal(n as nat));
}

fn push_label_line(out: &mut String, state: State, id: State)
    ensures
        final(out)@ == old(out)@ + label_line(state as nat, id as nat),
{
    push_decimal(out, state);
    out.append(" [label=\"");
    push_decimal(out, id);
    out.append("\"]\n");
    assert(out@ =~= old(out)@ + label_line(state as nat, id as nat));
}

fn push_shape_line(out: &mut String, state: State, accepting: bool)
    ensures
        final(out)@ == old(out)@ + shape_line(state as nat, accepting),
{
    push_decimal(out, state);
    if accepting {
        out.append(" [shape=doublecircle]\n");
    } else {
        out.append(" [shape=circle]\n");
    }
    assert(out@ =~= old(out)@ + shape_line(state as nat, accepting));
}

fn push_edge_line(out: &mut String, from: State, t: &Transition)
    ensures
        final(out)@ == old(out)@ + edge_line(from as nat, *t),
{
    push_decimal(out, from);
    out.append(" -> ");
    match t {
        Transition::Goto(to) => {
            push_decimal(out, *to);
            out.append(" [label=\" \"]\n");
        },
        Transition::Consume(c, to) => {
            push_decimal(out, *to);
            out.append(" [label=\"");
            out.push(*c);
            out.append("\"]\n");
        },
    }
    assert(out@ =~= old(out)@ + edge_line(from as nat, *t));
}

/// Describes `nfa` as a directed graph in DOT. `mapping` gives each state
/// its canonical number, or `None` for a state that is to be left out; what
/// it holds beyond the states of `nfa` is not read.
pub fn render_dot(nfa: &Nfa, mapping: &Vec<Option<State>>, start: State, accept: State) -> (text:
    String)
    requires
        mapping@.len() >= nfa@.len(),
    ensures
        text@ == dot_text(nfa@, mapping@, start, accept),
{
    let n = nfa.num_states();
    let mut out = String::new();
    out.append("digraph {\n");
    out.append("rankdir=LR\n");
    out.append("\"\" [shape=none]\n");
    let ghost head = out@;
    let mut state: usize = 0;
    while state < n
        invariant
            n == nfa@.len(),
            mapping@.len() >= n,
            state <= n,
            out@ == head + label_lines(mapping@, state as nat),
        decreases n - state,
    {
        match mapping[state] {
            Some(id) => {
                push_label_line(&mut out, state, id);
            },
            None => {},
        }
        state += 1;
        assert(out@ =~= head + label_lines(mapping@, state as nat));
    }
    out.append("\"\" -> ");
    push_decimal(&mut out, start);
    out.append("\n");
    let ghost head = out@;
    let mut state: usize = 0;
    while state < n
        invariant
            n == nfa@.len(),
            mapping@.len() >= n,
            state <= n,
            out@ == head + state_lines(nfa@, mapping@, accept, state as nat),
        decreases n - state,
    {
        if mapping[state].is_some() {
            let ghost before = out@;
            push_shape_line(&mut out, state, state == accept);
            let ts = nfa.transitions(state);
            let mut j: usize = 0;
            while j < ts.len()
                invariant
                    j <= ts.len(),
                    out@ == before + shape_line(state as nat, state == accept) + edge_lines(
                        state as nat,
                        ts@.take(j as int),
                    ),
                decreases ts.len() - j,
            {
                push_edge_line(&mut out, state, &ts[j]);
                proof {
                    let done = ts@.take(j + 1);
                    assert(done.drop_last() =~= ts@.take(j as int));
                    assert(done.last() == ts@[j as int]);
                    assert(out@ =~= before + shape_line(state as nat, state == accept)
                        + edge_lines(state as nat, done));
                }
                j += 1;
            }
            assert(ts@.take(j as int) =~= ts@);
        }
        state += 1;
        assert(out@ =~= head + state_lines(nfa@, mapping@, accept, state as nat));
    }
    out.append("}\n");
    assert(out@ =~= dot_text(nfa@, mapping@, start, accept));
    out
}

} // verus!
