use regex_nfa::builder::{compile, Automaton};
use regex_nfa::hir::regex_of_hir;
use regex_nfa::nfa::{State, Transition};
use regex_nfa::pattern::{parse, pattern_to_dot, CompileError};
use regex_nfa::syntax::{Regex, RepetitionKind, Unsupported};
use regex_syntax::hir::{Hir, Literal};

fn lit(c: char) -> Regex {
    Regex::Literal(c)
}

fn group(r: Regex) -> Regex {
    Regex::Group(Box::new(r))
}

fn repeat(kind: RepetitionKind, r: Regex) -> Regex {
    Regex::Repetition(kind, Box::new(r))
}

fn closure(a: &Automaton, mut states: Vec<State>) -> Vec<State> {
    let mut i = 0;
    while i < states.len() {
        for t in a.nfa.transitions(states[i]) {
            if let Transition::Goto(to) = t {
                if !states.contains(to) {
                    states.push(*to);
                }
            }
        }
        i += 1;
    }
    states
}

fn accepts(a: &Automaton, input: &str) -> bool {
    let mut current = closure(a, vec![a.start]);
    for c in input.chars() {
        let mut next = Vec::new();
        for &s in &current {
            for t in a.nfa.transitions(s) {
                if let Transition::Consume(x, to) = t {
                    if *x == c && !next.contains(to) {
                        next.push(*to);
                    }
                }
            }
        }
        current = closure(a, next);
    }
    current.contains(&a.accept)
}

#[test]
fn parses_the_empty_pattern() {
    assert_eq!(parse("").unwrap(), Regex::Empty);
}

#[test]
fn parses_a_literal() {
    assert_eq!(parse("a").unwrap(), lit('a'));
    assert_eq!(parse("é").unwrap(), lit('é'));
    assert_eq!(parse("\\*").unwrap(), lit('*'));
}

#[test]
fn parses_a_concatenation() {
    assert_eq!(
        parse("abc").unwrap(),
        Regex::Concat(vec![lit('a'), lit('b'), lit('c')])
    );
}

#[test]
fn parses_an_alternation() {
    assert_eq!(
        parse("ab|c|d").unwrap(),
        Regex::Alternation(vec![
            Regex::Concat(vec![lit('a'), lit('b')]),
            lit('c'),
            lit('d'),
        ])
    );
}

#[test]
fn parses_groups() {
    assert_eq!(parse("(a)").unwrap(), group(lit('a')));
    assert_eq!(parse("(?:a)").unwrap(), group(lit('a')));
    assert_eq!(parse("((a))").unwrap(), group(group(lit('a'))));
}

#[test]
fn parses_repetitions() {
    assert_eq!(
        parse("a?").unwrap(),
        repeat(RepetitionKind::ZeroOrOne, lit('a'))
    );
    assert_eq!(
        parse("a*").unwrap(),
        repeat(RepetitionKind::ZeroOrMore, lit('a'))
    );
    assert_eq!(
        parse("a+").unwrap(),
        repeat(RepetitionKind::OneOrMore, lit('a'))
    );
    assert_eq!(
        parse("a{2,3}").unwrap(),
        repeat(RepetitionKind::Range, lit('a'))
    );
    assert_eq!(
        parse("a{2}").unwrap(),
        repeat(RepetitionKind::Range, lit('a'))
    );
    assert_eq!(
        parse("a{2,}").unwrap(),
        repeat(RepetitionKind::Range, lit('a'))
    );
    assert_eq!(
        parse("(ab)*?").unwrap(),
        repeat(
            RepetitionKind::ZeroOrMore,
            group(Regex::Concat(vec![lit('a'), lit('b')]))
        )
    );
}

#[test]
fn parses_what_the_compiler_refuses() {
    assert_eq!(parse("[a-z]").unwrap(), Regex::Class);
    assert_eq!(parse(".").unwrap(), Regex::Class);
    assert_eq!(parse("^").unwrap(), Regex::Anchor);
    assert_eq!(parse("$").unwrap(), Regex::Anchor);
    assert_eq!(parse("\\b").unwrap(), Regex::WordBoundary);
    assert_eq!(parse("\\B").unwrap(), Regex::WordBoundary);
}

#[test]
fn converts_expressions_made_by_hand() {
    assert_eq!(regex_of_hir(&Hir::empty()), Regex::Empty);
    assert_eq!(
        regex_of_hir(&Hir::literal(Literal::Unicode('x'))),
        lit('x')
    );
    assert_eq!(
        regex_of_hir(&Hir::literal(Literal::Byte(0xE9))),
        lit('\u{e9}')
    );
    let both = vec![
        Hir::literal(Literal::Unicode('a')),
        Hir::literal(Literal::Unicode('b')),
    ];
    assert_eq!(
        regex_of_hir(&Hir::concat(both.clone())),
        Regex::Concat(vec![lit('a'), lit('b')])
    );
    assert_eq!(
        regex_of_hir(&Hir::alternation(both)),
        Regex::Alternation(vec![lit('a'), lit('b')])
    );
}

#[test]
fn case_insensitive_literal_is_a_class() {
    assert_eq!(parse("(?i)a").unwrap(), Regex::Class);
    assert!(matches!(
        pattern_to_dot("(?i)a"),
        Err(CompileError::Unsupported(Unsupported::Class))
    ));
}

#[test]
fn refuses_malformed_patterns() {
    assert!(parse("(").is_err());
    assert!(parse("a)").is_err());
    assert!(parse("*").is_err());
    assert!(parse("[a").is_err());
    assert!(matches!(pattern_to_dot("("), Err(CompileError::Parse(_))));
}

#[test]
fn refuses_patterns_with_unsupported_constructs() {
    assert!(matches!(
        pattern_to_dot("[a-z]"),
        Err(CompileError::Unsupported(Unsupported::Class))
    ));
    assert!(matches!(
        pattern_to_dot("a."),
        Err(CompileError::Unsupported(Unsupported::Class))
    ));
    assert!(matches!(
        pattern_to_dot("^a"),
        Err(CompileError::Unsupported(Unsupported::Anchor))
    ));
    assert!(matches!(
        pattern_to_dot("a$"),
        Err(CompileError::Unsupported(Unsupported::Anchor))
    ));
    assert!(matches!(
        pattern_to_dot("a\\bb"),
        Err(CompileError::Unsupported(Unsupported::WordBoundary))
    ));
    assert!(matches!(
        pattern_to_dot("(a|b{2,3})c"),
        Err(CompileError::Unsupported(Unsupported::BoundedRepetition))
    ));
}

#[test]
fn renders_a_pattern() {
    let expected = "digraph {\n\
                    rankdir=LR\n\
                    \"\" [shape=none]\n\
                    0 [label=\"0\"]\n\
                    1 [label=\"2\"]\n\
                    2 [label=\"1\"]\n\
                    \"\" -> 0\n\
                    0 [shape=circle]\n\
                    0 -> 2 [label=\"a\"]\n\
                    1 [shape=doublecircle]\n\
                    2 [shape=circle]\n\
                    2 -> 1 [label=\"b\"]\n\
                    2 -> 1 [label=\" \"]\n\
                    }\n";
    assert_eq!(pattern_to_dot("ab?").unwrap(), expected);
}

#[test]
fn end_to_end() {
    let r = parse("a(bc|bd)*(e|f)").unwrap();
    assert_eq!(
        r,
        Regex::Concat(vec![
            lit('a'),
            repeat(
                RepetitionKind::ZeroOrMore,
                group(Regex::Alternation(vec![
                    Regex::Concat(vec![lit('b'), lit('c')]),
                    Regex::Concat(vec![lit('b'), lit('d')]),
                ]))
            ),
            group(Regex::Alternation(vec![lit('e'), lit('f')])),
        ])
    );
    let a = compile(&r).unwrap();
    assert!(accepts(&a, "abcbce"));
    assert!(accepts(&a, "af"));
    assert!(accepts(&a, "abdf"));
    assert!(!accepts(&a, "ag"));
    assert!(!accepts(&a, "a"));
    assert!(!accepts(&a, "abe"));
    assert!(!accepts(&a, "abcb"));
    assert!(!accepts(&a, ""));
    assert!(pattern_to_dot("a(bc|bd)*(e|f)").is_ok());
}
