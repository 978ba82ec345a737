//! The syntax tree of a regular expression, as the compiler consumes it, and
//! the test that tells which trees the compiler can handle.

use vstd::prelude::*;

verus! {

/// How often the operand of a repetition may match.
#[derive(Debug, Clone, Copy, PartialEq, Eq, Structural)]
pub enum RepetitionKind {
    /// `x?`
    ZeroOrOne,
    /// `x*`
    ZeroOrMore,
    /// `x+`
    OneOrMore,
    /// A counted repetition such as `x{2,5}`.
    Range,
}

/// A construct that the syntax knows and the compiler does not handle.
#[derive(Debug, Clone, Copy, PartialEq, Eq, Structural)]
pub enum Unsupported {
    /// A character class such as `[a-z]` or `.`.
    Class,
    /// An anchor such as `^` or `$`.
    Anchor,
    /// A word boundary such as `\b`.
    WordBoundary,
    /// A counted repetition such as `x{2,5}`.
    BoundedRepetition,
}

impl Unsupported {
    /// A diagnostic that names the construct.
    pub fn message(&self) -> (s: String)
        ensures
            s@ == match *self {
                Unsupported::Class => "character classes not supported"@,
                Unsupported::Anchor => "anchors not supported"@,
                Unsupported::WordBoundary => "word boundary not supported"@,
                Unsupported::BoundedRepetition => "bounded repetition not supported"@,
            },
    {
        match self {
            Unsupported::Class => "character classes not supported".to_owned(),
            Unsupported::Anchor => "anchors not supported".to_owned(),
            Unsupported::WordBoundary => "word boundary not supported".to_owned(),
            Unsupported::BoundedRepetition => "bounded repetition not supported".to_owned(),
        }
    }
}

/// A node of a regular expression's syntax tree.
#[derive(Debug, PartialEq, Eq)]
pub enum Regex {
    /// Matches the empty string.
    Empty,
    /// Matches exactly this character.
    Literal(char),
    /// Matches each operand in order.
    Concat(Vec<Regex>),
    /// Matches any one of the branches.
    Alternation(Vec<Regex>),
    /// Matches the operand repeatedly.
    Repetition(RepetitionKind, Box<Regex>),
    /// A pair of parentheses: matches what the operand matches.
    Group(Box<Regex>),
    /// A character class.
    Class,
    /// An anchor.
    Anchor,
    /// A word boundary.
    WordBoundary,
}

/// The mathematical model of a syntax tree.
pub enum Syntax {
    Empty,
    Literal(char),
    Concat(Seq<Syntax>),
    Alternation(Seq<Syntax>),
    Repetition(RepetitionKind, Box<Syntax>),
    Group(Box<Syntax>),
    Class,
    Anchor,
    WordBoundary,
}

/// The models of a list of trees.
pub open spec fn views(xs: Seq<Regex>) -> Seq<Syntax> {
    xs.map_values(|x: Regex| x@)
}

/// The model of a tree.
pub open spec fn syntax_of(r: Regex) -> Syntax
    decreases r,
{
    match r {
        Regex::Empty => Syntax::Empty,
        Regex::Literal(c) => Syntax::Literal(c),
        Regex::Concat(xs) => Syntax::Concat(
            Seq::new(
                xs@.len(),
                |i: int|
                    if 0 <= i < xs@.len() {
                        syntax_of(xs@[i])
                    } else {
                        Syntax::Empty
                    },
            ),
        ),
        Regex::Alternation(xs) => Syntax::Alternation(
            Seq::new(
                xs@.len(),
                |i: int|
                    if 0 <= i < xs@.len() {
                        syntax_of(xs@[i])
                    } else {
                        Syntax::Empty
                    },
            ),
        ),
        Regex::Repetition(kind, x) => Syntax::Repetition(kind, Box::new(syntax_of(*x))),
        Regex::Group(x) => Syntax::Group(Box::new(syntax_of(*x))),
        Regex::Class => Syntax::Class,
        Regex::Anchor => Syntax::Anchor,
        Regex::WordBoundary => Syntax::WordBoundary,
    }
}

impl View for Regex {
    type V = Syntax;

    open spec fn view(&self) -> Syntax {
        syntax_of(*self)
    }
}

/// The first construct of `r` that the compiler does not handle, where a node
/// comes before its operands and the operands come from left to right; `None`
/// where it handles all of `r`.
pub open spec fn first_unsupported(r: Syntax) -> Option<Unsupported>
    decreases r,
{
    match r {
        Syntax::Empty => None,
        Syntax::Literal(_) => None,
        Syntax::Concat(xs) => first_unsupported_in(xs),
        Syntax::Alternation(xs) => first_unsupported_in(xs),
        Syntax::Repetition(kind, x) => if kind == RepetitionKind::Range {
            Some(Unsupported::BoundedRepetition)
        } else {
            first_unsupported(*x)
        },
        Syntax::Group(x) => first_unsupported(*x),
        Syntax::Class => Some(Unsupported::Class),
        Syntax::Anchor => Some(Unsupported::Anchor),
        Syntax::WordBoundary => Some(Unsupported::WordBoundary),
    }
}

/// The first unsupported construct in a list of trees, taken in order.
pub open spec fn first_unsupported_in(xs: Seq<Syntax>) -> Option<Unsupported>
    decreases xs,
{
    if xs.len() == 0 {
        None
    } else {
        match first_unsupported(xs[0]) {
            Some(u) => Some(u),
            None => first_unsupported_in(xs.drop_first()),
        }
    }
}

/// The compiler handles every node of `r`.
pub open spec fn supported(r: Syntax) -> bool {
    first_unsupported(r) is None
}

/// The model of a concatenation or alternation lists the models of the
/// operands.
pub proof fn lemma_view_operands(r: Regex)
    ensures
        r matches Regex::Concat(xs) ==> r@ == Syntax::Concat(views(xs@)),
        r matches Regex::Alternation(xs) ==> r@ == Syntax::Alternation(views(xs@)),
{
    match r {
        Regex::Concat(xs) => {
            assert(r@->Concat_0 =~= views(xs@));
        },
        Regex::Alternation(xs) => {
            assert(r@->Alternation_0 =~= views(xs@));
        },
        _ => {},
    }
}

/// Where a list holds no unsupported construct, none of its trees does.
pub proof fn lemma_supported_operands(xs: Seq<Syntax>)
    requires
        first_unsupported_in(xs) is None,
    ensures
        forall|k: int| 0 <= k < xs.len() ==> supported(#[trigger] xs[k]),
    decreases xs.len(),
{
    if xs.len() > 0 {
        let rest = xs.drop_first();
        lemma_supported_operands(rest);
        assert forall|k: int| 0 <= k < xs.len() implies supported(#[trigger] xs[k]) by {
            if k > 0 {
                assert(xs[k] == rest[k - 1]);
            }
        }
    }
}

/// Skipping the operands that are supported does not change the first
/// unsupported construct of a list.
pub proof fn lemma_first_unsupported_skip(xs: Seq<Syntax>, i: int)
    requires
        0 <= i <= xs.len(),
        forall|k: int| 0 <= k < i ==> first_unsupported(#[trigger] xs[k]) is None,
    ensures
        first_unsupported_in(xs) == first_unsupported_in(xs.skip(i)),
    decreases i,
{
    if i == 0 {
        assert(xs.skip(0) =~= xs);
    } else {
        lemma_first_unsupported_skip(xs, i - 1);
        let rest = xs.skip(i - 1);
        assert(rest[0] == xs[i - 1]);
        assert(rest.drop_first() =~= xs.skip(i));
    }
}

impl Regex {
    /// The first construct of the tree that the compiler does not handle,
    /// or `None` where it handles the whole tree.
    pub fn unsupported(&self) -> (u: Option<Unsupported>)
        ensures
            u == first_unsupported(self@),
        decreases self,
    {
        match self {
            Regex::Empty => None,
            Regex::Literal(_) => None,
            Regex::Concat(xs) | Regex::Alternation(xs) => {
                proof {
                    lemma_view_operands(*self);
                }
                let mut i: usize = 0;
                while i < xs.len()
                    invariant
                        i <= xs.len(),
                        decreases_to!(self => xs),
                        first_unsupported(self@) == first_unsupported_in(views(xs@)),
                        forall|k: int| 0 <= k < i ==> first_unsupported(#[trigger] views(xs@)[k]) is None,
                    decreases xs.len() - i,
                {
                    let u = xs[i].unsupported();
                    if u.is_some() {
                        proof {
                            lemma_first_unsupported_skip(views(xs@), i as int);
                            assert(views(xs@).skip(i as int)[0] == xs[i as int]@);
                        }
                        return u;
                    }
                    i += 1;
                }
                proof {
                    lemma_first_unsupported_skip(views(xs@), i as int);
                    assert(views(xs@).skip(i as int).len() == 0);
                }
                None
            },
            Regex::Repetition(kind, x) => match kind {
                RepetitionKind::Range => Some(Unsupported::BoundedRepetition),
                _ => x.unsupported(),
            },
            Regex::Group(x) => x.unsupported(),
            Regex::Class => Some(Unsupported::Class),
            Regex::Anchor => Some(Unsupported::Anchor),
            Regex::WordBoundary => Some(Unsupported::WordBoundary),
        }
    }
}

} // verus!
