//! The nodes of parse forests: their kinds and shapes, and how generated code names them.
use crate::text::{decimal, decimal_injective, decimal_string, joined};
use crate::tokens::{fill, quote0, quote1, quote2, word, Src, SrcSpec};
use vstd::prelude::*;

verus! {

/// The kind of a node: a named rule, or a rule without a name by its number.
pub enum ParseNodeKind {
    NamedRule(String),
    Anon(usize),
}

/// What a [`ParseNodeKind`] is.
pub enum KindSpec {
    NamedRule(Seq<char>),
    Anon(nat),
}

impl View for ParseNodeKind {
    type V = KindSpec;

    open spec fn view(&self) -> KindSpec {
        match self {
            ParseNodeKind::NamedRule(name) => KindSpec::NamedRule(name@),
            ParseNodeKind::Anon(i) => KindSpec::Anon(*i as nat),
        }
    }
}

impl Clone for ParseNodeKind {
    fn clone(&self) -> (r: Self)
        ensures
            r@ == self@,
    {
        match self {
            ParseNodeKind::NamedRule(name) => ParseNodeKind::NamedRule(name.clone()),
            ParseNodeKind::Anon(i) => ParseNodeKind::Anon(*i),
        }
    }
}

/// An underscore, and after it the number.
pub open spec fn numbered_name(i: nat) -> Seq<char> {
    "_"@ + decimal(i)
}

/// An underscore, and after it the number.
pub fn numbered_name_of(i: usize) -> (r: String)
    ensures
        r@ == numbered_name(i as nat),
{
    let digits = decimal_string(i);
    joined("_", digits.as_str())
}

/// The name of the variant for a kind of nodes.
pub open spec fn kind_name(kind: KindSpec) -> Seq<char> {
    match kind {
        KindSpec::NamedRule(name) => name,
        KindSpec::Anon(i) => numbered_name(i),
    }
}

pub const KIND: &'static str = "_P :: $";

/// The path to the variant for a kind of nodes.
pub open spec fn kind_src(kind: KindSpec) -> SrcSpec {
    fill(KIND@, seq![word(kind_name(kind))])
}

impl ParseNodeKind {
    /// The name of the variant for the kind.
    pub fn ident(&self) -> (r: Src)
        ensures
            r@ == word(kind_name(self@)),
    {
        match self {
            ParseNodeKind::NamedRule(name) => Src::ident(name.as_str()),
            ParseNodeKind::Anon(i) => {
                let name = numbered_name_of(*i);
                Src::ident(name.as_str())
            },
        }
    }

    /// The path to the variant for the kind.
    pub fn to_src(&self) -> (r: Src)
        ensures
            r@ == kind_src(self@),
    {
        quote1(KIND, self.ident())
    }
}

/// How a node is made of others.
pub enum ParseNodeShape<P> {
    /// Of none that can be looked at.
    Opaque,
    /// It stands for another node.
    Alias(P),
    /// Of one of several nodes.
    Choice,
    /// Of a node, or of none.
    Opt(P),
    /// Of two nodes, one after the other.
    Split(P, P),
}

/// What a [`ParseNodeShape`] is.
pub type ShapeSpec = ParseNodeShape<KindSpec>;

impl View for ParseNodeShape<ParseNodeKind> {
    type V = ShapeSpec;

    open spec fn view(&self) -> ShapeSpec {
        match self {
            ParseNodeShape::Opaque => ParseNodeShape::Opaque,
            ParseNodeShape::Alias(inner) => ParseNodeShape::Alias(inner@),
            ParseNodeShape::Choice => ParseNodeShape::Choice,
            ParseNodeShape::Opt(inner) => ParseNodeShape::Opt(inner@),
            ParseNodeShape::Split(left, right) => ParseNodeShape::Split(left@, right@),
        }
    }
}

impl Clone for ParseNodeShape<ParseNodeKind> {
    fn clone(&self) -> (r: Self)
        ensures
            r@ == self@,
    {
        match self {
            ParseNodeShape::Opaque => ParseNodeShape::Opaque,
            ParseNodeShape::Alias(inner) => ParseNodeShape::Alias(inner.clone()),
            ParseNodeShape::Choice => ParseNodeShape::Choice,
            ParseNodeShape::Opt(inner) => ParseNodeShape::Opt(inner.clone()),
            ParseNodeShape::Split(left, right) => ParseNodeShape::Split(
                left.clone(),
                right.clone(),
            ),
        }
    }
}

pub const OPAQUE: &'static str = "Opaque";

pub const ALIAS: &'static str = "Alias ( $ )";

pub const CHOICE: &'static str = "Choice";

pub const OPT: &'static str = "Opt ( $ )";

pub const SPLIT: &'static str = "Split ( $ , $ )";

pub const SHAPE: &'static str = "ParseNodeShape :: $";

/// The expression for a shape.
pub open spec fn shape_src(shape: ShapeSpec) -> SrcSpec {
    let variant = match shape {
        ParseNodeShape::Opaque => fill(OPAQUE@, Seq::empty()),
        ParseNodeShape::Alias(inner) => fill(ALIAS@, seq![kind_src(inner)]),
        ParseNodeShape::Choice => fill(CHOICE@, Seq::empty()),
        ParseNodeShape::Opt(inner) => fill(OPT@, seq![kind_src(inner)]),
        ParseNodeShape::Split(left, right) => fill(SPLIT@, seq![kind_src(left), kind_src(right)]),
    };
    fill(SHAPE@, seq![variant])
}

impl ParseNodeShape<ParseNodeKind> {
    /// The expression for the shape.
    pub fn to_src(&self) -> (r: Src)
        ensures
            r@ == shape_src(self@),
    {
        let variant = match self {
            ParseNodeShape::Opaque => quote0(OPAQUE),
            ParseNodeShape::Alias(inner) => quote1(ALIAS, inner.to_src()),
            ParseNodeShape::Choice => quote0(CHOICE),
            ParseNodeShape::Opt(inner) => quote1(OPT, inner.to_src()),
            ParseNodeShape::Split(left, right) => quote2(SPLIT, left.to_src(), right.to_src()),
        };
        quote1(SHAPE, variant)
    }
}

/// The names of kinds tell them apart, as long as no rule is named like a number.
pub proof fn kind_name_injective(a: KindSpec, b: KindSpec)
    requires
        a matches KindSpec::NamedRule(name) ==> forall|i: nat| name != numbered_name(i),
        b matches KindSpec::NamedRule(name) ==> forall|i: nat| name != numbered_name(i),
    ensures
        kind_name(a) == kind_name(b) <==> a == b,
{
    match (a, b) {
        (KindSpec::Anon(i), KindSpec::Anon(j)) => {
            if numbered_name(i) == numbered_name(j) {
                let skip = "_"@.len() as int;
                assert(numbered_name(i).skip(skip) =~= decimal(i));
                assert(numbered_name(j).skip(skip) =~= decimal(j));
                decimal_injective(i, j);
            }
        },
        _ => {},
    }
}

} // verus!
