use regex_nfa::builder::compile;
use regex_nfa::nfa::{Nfa, Transition};
use regex_nfa::pattern::regex_to_dot;
use regex_nfa::render::render_dot;
use regex_nfa::renumber::renumber_states;
use regex_nfa::syntax::{Regex, RepetitionKind, Unsupported};

#[test]
fn renders_a_single_literal() {
    let text = regex_to_dot(&Regex::Literal('a')).unwrap();
    let expected = "digraph {\n\
                    rankdir=LR\n\
                    \"\" [shape=none]\n\
                    0 [label=\"0\"]\n\
                    1 [label=\"1\"]\n\
                    \"\" -> 0\n\
                    0 [shape=circle]\n\
                    0 -> 1 [label=\"a\"]\n\
                    1 [shape=doublecircle]\n\
                    }\n";
    assert_eq!(text, expected);
}

#[test]
fn epsilon_moves_are_labelled_with_a_blank() {
    let text = regex_to_dot(&Regex::Empty).unwrap();
    let expected = "digraph {\n\
                    rankdir=LR\n\
                    \"\" [shape=none]\n\
                    0 [label=\"0\"]\n\
                    1 [label=\"1\"]\n\
                    \"\" -> 0\n\
                    0 [shape=circle]\n\
                    0 -> 1 [label=\" \"]\n\
                    1 [shape=doublecircle]\n\
                    }\n";
    assert_eq!(text, expected);
}

#[test]
fn renders_states_under_their_own_numbers_with_canonical_labels() {
    // a(bc|bd)*(e|f)
    let r = Regex::Concat(vec![
        Regex::Literal('a'),
        Regex::Repetition(
            RepetitionKind::ZeroOrMore,
            Box::new(Regex::Group(Box::new(Regex::Alternation(vec![
                Regex::Concat(vec![Regex::Literal('b'), Regex::Literal('c')]),
                Regex::Concat(vec![Regex::Literal('b'), Regex::Literal('d')]),
            ])))),
        ),
        Regex::Group(Box::new(Regex::Alternation(vec![
            Regex::Literal('e'),
            Regex::Literal('f'),
        ]))),
    ]);
    let expected = "digraph {\n\
                    rankdir=LR\n\
                    \"\" [shape=none]\n\
                    0 [label=\"0\"]\n\
                    1 [label=\"5\"]\n\
                    2 [label=\"1\"]\n\
                    3 [label=\"4\"]\n\
                    4 [label=\"2\"]\n\
                    5 [label=\"3\"]\n\
                    \"\" -> 0\n\
                    0 [shape=circle]\n\
                    0 -> 2 [label=\"a\"]\n\
                    1 [shape=doublecircle]\n\
                    2 [shape=circle]\n\
                    2 -> 4 [label=\"b\"]\n\
                    2 -> 5 [label=\"b\"]\n\
                    2 -> 3 [label=\" \"]\n\
                    3 [shape=circle]\n\
                    3 -> 1 [label=\"e\"]\n\
                    3 -> 1 [label=\"f\"]\n\
                    4 [shape=circle]\n\
                    4 -> 2 [label=\"c\"]\n\
                    5 [shape=circle]\n\
                    5 -> 2 [label=\"d\"]\n\
                    }\n";
    assert_eq!(regex_to_dot(&r).unwrap(), expected);
}

#[test]
fn unreachable_states_are_left_out() {
    let mut nfa = Nfa::default();
    let start = nfa.new_state();
    let accept = nfa.new_state();
    let lost = nfa.new_state();
    nfa.add_transition(start, Transition::Consume('a', accept));
    nfa.add_transition(lost, Transition::Goto(accept));
    let mapping = renumber_states(&nfa, start);
    assert_eq!(mapping, vec![Some(0), Some(1), None]);
    let text = render_dot(&nfa, &mapping, start, accept);
    let expected = "digraph {\n\
                    rankdir=LR\n\
                    \"\" [shape=none]\n\
                    0 [label=\"0\"]\n\
                    1 [label=\"1\"]\n\
                    \"\" -> 0\n\
                    0 [shape=circle]\n\
                    0 -> 1 [label=\"a\"]\n\
                    1 [shape=doublecircle]\n\
                    }\n";
    assert_eq!(text, expected);
    assert!(!text.contains("2 ["));
    assert!(!text.contains("2 ->"));
}

#[test]
fn renders_numbers_of_several_digits() {
    let letters: Vec<char> = "abcdefghijklmnopqrstuvwxyz".chars().collect();
    let r = Regex::Concat(letters.iter().map(|c| Regex::Literal(*c)).collect());
    let a = compile(&r).unwrap();
    let n = a.nfa.num_states();
    assert_eq!(n, 27);
    let mapping = renumber_states(&a.nfa, a.start);
    let mut expected = String::from("digraph {\nrankdir=LR\n\"\" [shape=none]\n");
    for s in 0..n {
        expected += &format!("{} [label=\"{}\"]\n", s, mapping[s].unwrap());
    }
    expected += "\"\" -> 0\n";
    for s in 0..n {
        let shape = if s == 1 { "doublecircle" } else { "circle" };
        expected += &format!("{} [shape={}]\n", s, shape);
        for t in a.nfa.transitions(s) {
            match t {
                Transition::Goto(to) => expected += &format!("{} -> {} [label=\" \"]\n", s, to),
                Transition::Consume(c, to) => {
                    expected += &format!("{} -> {} [label=\"{}\"]\n", s, to, c)
                }
            }
        }
    }
    expected += "}\n";
    let text = render_dot(&a.nfa, &mapping, a.start, a.accept);
    assert_eq!(text, expected);
    assert!(text.contains("\n10 [label=\"9\"]\n"));
    assert!(text.contains("\n26 -> 1 [label=\"z\"]\n"));
    assert!(text.contains("\n1 [label=\"26\"]\n"));
}

#[test]
fn renders_the_empty_automaton() {
    let nfa = Nfa::default();
    let text = render_dot(&nfa, &Vec::new(), 0, 0);
    assert_eq!(
        text,
        "digraph {\nrankdir=LR\n\"\" [shape=none]\n\"\" -> 0\n}\n"
    );
}

#[test]
fn renders_any_mapping_it_is_given() {
    let mut nfa = Nfa::default();
    nfa.new_state();
    nfa.new_state();
    nfa.add_transition(1, Transition::Consume('é', 0));
    let text = render_dot(&nfa, &vec![Some(123), Some(4567)], 1, 0);
    let expected = "digraph {\n\
                    rankdir=LR\n\
                    \"\" [shape=none]\n\
                    0 [label=\"123\"]\n\
                    1 [label=\"4567\"]\n\
                    \"\" -> 1\n\
                    0 [shape=doublecircle]\n\
                    1 [shape=circle]\n\
                    1 -> 0 [label=\"é\"]\n\
                    }\n";
    assert_eq!(text, expected);
}

#[test]
fn entries_beyond_the_states_are_not_read() {
    let mut nfa = Nfa::default();
    let start = nfa.new_state();
    let accept = nfa.new_state();
    nfa.add_transition(start, Transition::Consume('a', accept));
    nfa.add_transition(start, Transition::Goto(accept));
    let exact = render_dot(&nfa, &vec![Some(0), Some(1)], start, accept);
    let longer = render_dot(&nfa, &vec![Some(0), Some(1), Some(7), None], start, accept);
    let expected = "digraph {\n\
                    rankdir=LR\n\
                    \"\" [shape=none]\n\
                    0 [label=\"0\"]\n\
                    1 [label=\"1\"]\n\
                    \"\" -> 0\n\
                    0 [shape=circle]\n\
                    0 -> 1 [label=\"a\"]\n\
                    0 -> 1 [label=\" \"]\n\
                    1 [shape=doublecircle]\n\
                    }\n";
    assert_eq!(longer, expected);
    assert_eq!(longer, exact);
}

#[test]
fn longer_mapping_of_the_empty_automaton() {
    let nfa = Nfa::default();
    let text = render_dot(&nfa, &vec![Some(3), None], 0, 0);
    assert_eq!(
        text,
        "digraph {\nrankdir=LR\n\"\" [shape=none]\n\"\" -> 0\n}\n"
    );
}

#[test]
fn unsupported_tree_is_not_rendered() {
    assert_eq!(
        regex_to_dot(&Regex::Concat(vec![Regex::Literal('a'), Regex::Class])),
        Err(Unsupported::Class)
    );
}
