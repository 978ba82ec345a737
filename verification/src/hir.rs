//! Reading the trees of the `regex_syntax` parser. A parsed expression is
//! opaque to the proofs; what it stands for has a name, and one trusted
//! function reads one node of it.

use vstd::prelude::*;
use regex_syntax::hir::RepetitionKind as Kind;
use regex_syntax::hir::{Hir, HirKind, Literal};
use crate::syntax::{lemma_view_operands, views, Regex, RepetitionKind, Syntax};

verus! {

/// A parsed expression of `regex_syntax`.
#[verifier::external_type_specification]
#[verifier::external_body]
pub struct ExHir(regex_syntax::hir::Hir);

/// The tree that a parsed expression holds.
pub uninterp spec fn hir_syntax(hir: Hir) -> Syntax;

/// The top node of a parsed expression, with the operands as the parser
/// left them.
pub enum Node<'a> {
    Empty,
    Literal(char),
    Concat(&'a Vec<Hir>),
    Alternation(&'a Vec<Hir>),
    Repetition,
    Group(&'a Hir),
    Class,
    Anchor,
    WordBoundary,
}

/// The trees that a list of parsed expressions holds.
pub open spec fn hir_syntaxes(hirs: Seq<Hir>) -> Seq<Syntax> {
    hirs.map_values(|hir: Hir| hir_syntax(hir))
}

/// `node` is the top node of the tree `s`.
pub open spec fn is_top_of(node: Node, s: Syntax) -> bool {
    match node {
        Node::Empty => s == Syntax::Empty,
        Node::Literal(c) => s == Syntax::Literal(c),
        Node::Concat(hirs) => s == Syntax::Concat(hir_syntaxes(hirs@)),
        Node::Alternation(hirs) => s == Syntax::Alternation(hir_syntaxes(hirs@)),
        Node::Repetition => s is Repetition,
        Node::Group(hir) => s == Syntax::Group(Box::new(hir_syntax(*hir))),
        Node::Class => s == Syntax::Class,
        Node::Anchor => s == Syntax::Anchor,
        Node::WordBoundary => s == Syntax::WordBoundary,
    }
}

/// `Hir::kind` gives the kind of the top node and, with it, the operands.
/// The tree that the expression holds has that node on top and, below it,
/// the trees that the operands hold. A literal byte stands for the character
/// with that number; of a class, an anchor and a word boundary only the kind
/// is kept.
#[verifier::external_body]
fn hir_node(hir: &Hir) -> (node: Node<'_>)
    ensures
        is_top_of(node, hir_syntax(*hir)),
{
    match hir.kind() {
        HirKind::Empty => Node::Empty,
        HirKind::Literal(Literal::Unicode(c)) => Node::Literal(*c),
        HirKind::Literal(Literal::Byte(b)) => Node::Literal(char::from(*b)),
        HirKind::Class(_) => Node::Class,
        HirKind::Anchor(_) => Node::Anchor,
        HirKind::WordBoundary(_) => Node::WordBoundary,
        HirKind::Repetition(_) => Node::Repetition,
        HirKind::Group(x) => Node::Group(&x.hir),
        HirKind::Concat(xs) => Node::Concat(xs),
        HirKind::Alternation(xs) => Node::Alternation(xs),
    }
}

/// Where `Hir::kind` gives a repetition: its kind and its operand, the
/// fields `kind` and `hir` of the `Repetition`. Of a counted repetition only
/// that it is one is kept. Where it gives anything else: `None`.
#[verifier::external_body]
fn hir_repetition(hir: &Hir) -> (parts: Option<(RepetitionKind, &Hir)>)
    ensures
        match parts {
            Some((kind, operand)) => hir_syntax(*hir) == Syntax::Repetition(
                kind,
                Box::new(hir_syntax(*operand)),
            ),
            None => !(hir_syntax(*hir) is Repetition),
        },
{
    match hir.kind() {
        HirKind::Repetition(x) => match x.kind {
            Kind::ZeroOrOne => Some((RepetitionKind::ZeroOrOne, &x.hir)),
            Kind::ZeroOrMore => Some((RepetitionKind::ZeroOrMore, &x.hir)),
            Kind::OneOrMore => Some((RepetitionKind::OneOrMore, &x.hir)),
            Kind::Range(_) => Some((RepetitionKind::Range, &x.hir)),
        },
        _ => None,
    }
}

/// Converts the operands of a node.
fn regexes_of_hirs(hirs: &Vec<Hir>, Ghost(parent): Ghost<Syntax>) -> (out: Vec<Regex>)
    requires
        parent == Syntax::Concat(hir_syntaxes(hirs@)) || parent == Syntax::Alternation(
            hir_syntaxes(hirs@),
        ),
    ensures
        views(out@) == hir_syntaxes(hirs@),
    decreases parent, 0nat,
{
    let mut out: Vec<Regex> = Vec::new();
    let mut i: usize = 0;
    while i < hirs.len()
        invariant
            i <= hirs.len(),
            out@.len() == i,
            parent == Syntax::Concat(hir_syntaxes(hirs@)) || parent == Syntax::Alternation(
                hir_syntaxes(hirs@),
            ),
            forall|k: int| 0 <= k < i ==> (#[trigger] out@[k])@ == hir_syntax(hirs@[k]),
        decreases hirs.len() - i,
    {
        proof {
            assert(hir_syntaxes(hirs@)[i as int] == hir_syntax(hirs@[i as int]));
            if parent is Concat {
                assert(decreases_to!(parent => parent->Concat_0[i as int]));
            } else {
                assert(decreases_to!(parent => parent->Alternation_0[i as int]));
            }
        }
        let r = regex_of_hir(&hirs[i]);
        out.push(r);
        i += 1;
    }
    assert(views(out@) =~= hir_syntaxes(hirs@));
    out
}

/// Converts a parsed expression into the tree that it holds.
pub fn regex_of_hir(hir: &Hir) -> (r: Regex)
    ensures
        r@ == hir_syntax(*hir),
    decreases hir_syntax(*hir), 1nat,
{
    let ghost s = hir_syntax(*hir);
    proof {
        if s is Repetition {
            assert(decreases_to!(s => s->Repetition_1));
        }
        if s is Group {
            assert(decreases_to!(s => s->Group_0));
        }
    }
    match hir_node(hir) {
        Node::Empty => Regex::Empty,
        Node::Literal(c) => Regex::Literal(c),
        Node::Concat(hirs) => {
            let r = Regex::Concat(regexes_of_hirs(hirs, Ghost(hir_syntax(*hir))));
            proof {
                lemma_view_operands(r);
            }
            r
        },
        Node::Alternation(hirs) => {
            let r = Regex::Alternation(regexes_of_hirs(hirs, Ghost(hir_syntax(*hir))));
            proof {
                lemma_view_operands(r);
            }
            r
        },
        Node::Repetition => match hir_repetition(hir) {
            Some((kind, x)) => Regex::Repetition(kind, Box::new(regex_of_hir(x))),
            None => unreached(),
        },
        Node::Group(x) => Regex::Group(Box::new(regex_of_hir(x))),
        Node::Class => Regex::Class,
        Node::Anchor => Regex::Anchor,
        Node::WordBoundary => Regex::WordBoundary,
    }
}

} // verus!
