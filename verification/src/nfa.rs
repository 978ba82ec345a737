//! The automaton: a growable list of states, each owning the ordered list of
//! its outgoing transitions. States are addressed by index, so no state owns
//! another.

use vstd::prelude::*;

verus! {

/// A state of an automaton: its index in the automaton's list of states.
pub type State = usize;

/// A directed edge out of a state.
#[derive(Debug, Clone, Copy, PartialEq, Eq, Structural)]
pub enum Transition {
    /// An epsilon move: go to the state without consuming input.
    Goto(State),
    /// Consume exactly this character, then go to the state.
    Consume(char, State),
}

impl Transition {
    /// The state that the transition leads to.
    pub open spec fn target(self) -> State {
        match self {
            Transition::Goto(to) => to,
            Transition::Consume(_, to) => to,
        }
    }

    /// The state that the transition leads to.
    pub fn to(&self) -> (to: State)
        ensures
            to == self.target(),
    {
        match self {
            Transition::Goto(to) => *to,
            Transition::Consume(_, to) => *to,
        }
    }
}

/// The mathematical model of an automaton: for each state, in order of
/// allocation, the sequence of its outgoing transitions in insertion order.
pub type Graph = Seq<Seq<Transition>>;

/// No transition of `g` leads to a state that `g` does not have.
pub open spec fn well_formed(g: Graph) -> bool {
    forall|s: int, j: int|
        0 <= s < g.len() && 0 <= j < g[s].len() ==> (#[trigger] g[s][j]).target() < g.len()
}

/// `g` with one more state, which has no transitions yet.
pub open spec fn add_state(g: Graph) -> Graph {
    g.push(Seq::empty())
}

/// `g` with `t` appended to the transitions of `from`.
pub open spec fn add_edge(g: Graph, from: int, t: Transition) -> Graph
    recommends
        0 <= from < g.len(),
{
    g.update(from, g[from].push(t))
}

/// Adding a state keeps every edge in range.
pub proof fn lemma_add_state_well_formed(g: Graph)
    requires
        well_formed(g),
    ensures
        well_formed(add_state(g)),
{
    let h = add_state(g);
    assert forall|s: int, j: int| 0 <= s < h.len() && 0 <= j < h[s].len() implies (#[trigger] h[s][j]).target() < h.len() by {
        if s < g.len() {
            assert(h[s][j] == g[s][j]);
        }
    }
}

/// Adding an edge to an existing state keeps every edge in range.
pub proof fn lemma_add_edge_well_formed(g: Graph, from: int, t: Transition)
    requires
        well_formed(g),
        0 <= from < g.len(),
        t.target() < g.len(),
    ensures
        well_formed(add_edge(g, from, t)),
{
    let h = add_edge(g, from, t);
    assert forall|s: int, j: int| 0 <= s < h.len() && 0 <= j < h[s].len() implies (#[trigger] h[s][j]).target() < h.len() by {
        if s == from && j == g[from].len() {
        } else {
            assert(h[s][j] == g[s][j]);
        }
    }
}

/// A nondeterministic finite automaton. Which state is the start and which
/// the accept state is for the caller to keep track of.
#[derive(Debug, Clone, PartialEq, Eq)]
pub struct Nfa {
    states: Vec<Vec<Transition>>,
}

impl View for Nfa {
    type V = Graph;

    closed spec fn view(&self) -> Graph {
        self.states@.map_values(|ts: Vec<Transition>| ts@)
    }
}

impl Default for Nfa {
    /// The automaton without states.
    fn default() -> (nfa: Self)
        ensures
            nfa@ == Seq::<Seq<Transition>>::empty(),
    {
        let nfa = Nfa { states: Vec::new() };
        assert(nfa@ =~= Seq::<Seq<Transition>>::empty());
        nfa
    }
}

impl Nfa {
    /// Every transition leads to a state of this automaton.
    pub open spec fn wf(&self) -> bool {
        well_formed(self@)
    }

    /// An automaton has no more states than can be counted.
    pub proof fn lemma_states_bounded(&self)
        ensures
            self@.len() <= usize::MAX,
    {
        assert(self@.len() == self.states.len());
    }

    /// The number of states allocated so far.
    pub fn num_states(&self) -> (n: usize)
        ensures
            n == self@.len(),
    {
        self.states.len()
    }

    /// Allocates a state without transitions and returns it. States are
    /// numbered from 0 in the order of their allocation.
    pub fn new_state(&mut self) -> (s: State)
        ensures
            s == old(self)@.len(),
            final(self)@ == add_state(old(self)@),
            old(self).wf() ==> final(self).wf(),
    {
        let s = self.states.len();
        self.states.push(Vec::new());
        proof {
            assert(self@ =~= add_state(old(self)@));
            if old(self).wf() {
                lemma_add_state_well_formed(old(self)@);
            }
        }
        s
    }

    /// Appends `t` to the transitions of `from`.
    pub fn add_transition(&mut self, from: State, t: Transition)
        requires
            from < old(self)@.len(),
        ensures
            final(self)@ == add_edge(old(self)@, from as int, t),
            old(self).wf() && t.target() < old(self)@.len() ==> final(self).wf(),
    {
        self.states[from].push(t);
        proof {
            assert(self@ =~= add_edge(old(self)@, from as int, t));
            if old(self).wf() && t.target() < old(self)@.len() {
                lemma_add_edge_well_formed(old(self)@, from as int, t);
            }
        }
    }

    /// The transitions out of `state`, in the order in which they were added.
    pub fn transitions(&self, state: State) -> (ts: &Vec<Transition>)
        requires
            state < self@.len(),
        ensures
            ts@ == self@[state as int],
    {
        &self.states[state]
    }
}

} // verus!
