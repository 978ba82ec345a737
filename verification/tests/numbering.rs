use regex_nfa::builder::compile;
use regex_nfa::nfa::{Nfa, State, Transition};
use regex_nfa::renumber::renumber_states;
use regex_nfa::syntax::{Regex, RepetitionKind};

fn graph(edges: &[Vec<Transition>]) -> Nfa {
    let mut nfa = Nfa::default();
    for _ in edges {
        nfa.new_state();
    }
    for (from, ts) in edges.iter().enumerate() {
        for t in ts {
            nfa.add_transition(from, *t);
        }
    }
    nfa
}

/// The automaton of the states that have a number, each under its number.
fn canonical(nfa: &Nfa, mapping: &[Option<State>]) -> Nfa {
    let reached = mapping.iter().filter(|m| m.is_some()).count();
    let mut edges = vec![Vec::new(); reached];
    for (s, id) in mapping.iter().enumerate() {
        if let Some(id) = id {
            for t in nfa.transitions(s) {
                edges[*id].push(match *t {
                    Transition::Goto(to) => Transition::Goto(mapping[to].unwrap()),
                    Transition::Consume(c, to) => Transition::Consume(c, mapping[to].unwrap()),
                });
            }
        }
    }
    graph(&edges)
}

#[test]
fn single_state() {
    let nfa = graph(&[vec![]]);
    assert_eq!(renumber_states(&nfa, 0), vec![Some(0)]);
}

#[test]
fn start_gets_number_zero() {
    let nfa = graph(&[vec![], vec![Transition::Goto(0)], vec![Transition::Goto(1)]]);
    assert_eq!(renumber_states(&nfa, 2), vec![Some(2), Some(1), Some(0)]);
    assert_eq!(renumber_states(&nfa, 1), vec![Some(1), Some(0), None]);
    assert_eq!(renumber_states(&nfa, 0), vec![Some(0), None, None]);
}

#[test]
fn targets_are_numbered_in_transition_order() {
    let nfa = graph(&[
        vec![
            Transition::Consume('a', 3),
            Transition::Goto(1),
            Transition::Consume('b', 2),
        ],
        vec![],
        vec![],
        vec![],
    ]);
    assert_eq!(
        renumber_states(&nfa, 0),
        vec![Some(0), Some(2), Some(3), Some(1)]
    );
}

#[test]
fn breadth_comes_before_depth() {
    // 0 -> 1 -> 3, 0 -> 2 -> 4: the two children of 0 come before the grandchildren.
    let nfa = graph(&[
        vec![Transition::Goto(4), Transition::Goto(2)],
        vec![],
        vec![Transition::Goto(1)],
        vec![],
        vec![Transition::Goto(3)],
    ]);
    assert_eq!(
        renumber_states(&nfa, 0),
        vec![Some(0), Some(4), Some(2), Some(3), Some(1)]
    );
}

#[test]
fn a_state_is_numbered_once() {
    let nfa = graph(&[
        vec![Transition::Goto(1), Transition::Consume('a', 1), Transition::Goto(0)],
        vec![Transition::Goto(0), Transition::Goto(1), Transition::Goto(2)],
        vec![Transition::Goto(1)],
    ]);
    assert_eq!(renumber_states(&nfa, 0), vec![Some(0), Some(1), Some(2)]);
}

#[test]
fn unreachable_states_get_no_number() {
    let nfa = graph(&[
        vec![Transition::Goto(2)],
        vec![Transition::Goto(0)],
        vec![],
        vec![Transition::Goto(3)],
    ]);
    assert_eq!(renumber_states(&nfa, 0), vec![Some(0), None, Some(1), None]);
}

#[test]
fn canonical_automaton_keeps_its_numbers() {
    let nfa = graph(&[
        vec![Transition::Consume('a', 1), Transition::Goto(2)],
        vec![Transition::Goto(3)],
        vec![Transition::Goto(1), Transition::Goto(4)],
        vec![Transition::Goto(0)],
        vec![],
    ]);
    assert_eq!(
        renumber_states(&nfa, 0),
        vec![Some(0), Some(1), Some(2), Some(3), Some(4)]
    );
}

#[test]
fn renumbering_the_canonical_form_is_the_identity() {
    let nfa = graph(&[
        vec![Transition::Goto(5)],
        vec![Transition::Goto(1)],
        vec![Transition::Consume('x', 0), Transition::Goto(4)],
        vec![Transition::Goto(6), Transition::Goto(2)],
        vec![],
        vec![Transition::Consume('y', 3), Transition::Goto(2)],
        vec![Transition::Goto(5)],
    ]);
    let mapping = renumber_states(&nfa, 3);
    assert_eq!(
        mapping,
        vec![Some(4), None, Some(2), Some(0), Some(5), Some(3), Some(1)]
    );
    let again = canonical(&nfa, &mapping);
    assert_eq!(again.num_states(), 6);
    assert_eq!(
        renumber_states(&again, 0),
        vec![Some(0), Some(1), Some(2), Some(3), Some(4), Some(5)]
    );
}

#[test]
fn numbers_do_not_depend_on_the_names_of_the_states() {
    let one = graph(&[
        vec![Transition::Consume('a', 1), Transition::Goto(2)],
        vec![Transition::Goto(2)],
        vec![Transition::Consume('b', 0)],
    ]);
    // The same automaton with the names 0, 1, 2 changed to 2, 0, 1.
    let other = graph(&[
        vec![Transition::Goto(1)],
        vec![Transition::Consume('b', 2)],
        vec![Transition::Consume('a', 0), Transition::Goto(1)],
    ]);
    let m = renumber_states(&one, 0);
    let n = renumber_states(&other, 2);
    assert_eq!(m[0], n[2]);
    assert_eq!(m[1], n[0]);
    assert_eq!(m[2], n[1]);
}

#[test]
fn compiled_automaton_is_numbered_breadth_first() {
    // a(bc|bd)*(e|f)
    let r = Regex::Concat(vec![
        Regex::Literal('a'),
        Regex::Repetition(
            RepetitionKind::ZeroOrMore,
            Box::new(Regex::Group(Box::new(Regex::Alternation(vec![
                Regex::Concat(vec![Regex::Literal('b'), Regex::Literal('c')]),
                Regex::Concat(vec![Regex::Literal('b'), Regex::Literal('d')]),
            ])))),
        ),
        Regex::Group(Box::new(Regex::Alternation(vec![
            Regex::Literal('e'),
            Regex::Literal('f'),
        ]))),
    ]);
    let a = compile(&r).unwrap();
    assert_eq!(a.nfa.num_states(), 6);
    assert_eq!(
        renumber_states(&a.nfa, a.start),
        vec![Some(0), Some(5), Some(1), Some(4), Some(2), Some(3)]
    );
}
