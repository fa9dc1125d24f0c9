//! Input patterns: what the generator has to know of them, and the scannerless ones.
use crate::tokens::{fill, quote0, quote2, string, Src, SrcSpec, Token, TokenSpec};
use vstd::prelude::*;

verus! {

/// A pattern that generated code can match against its input.
pub trait RustInputPat {
    /// The type of the slices of the input.
    spec fn slice_ty_spec() -> SrcSpec;

    /// The expression that matches the pattern.
    spec fn matcher_spec(&self) -> SrcSpec;

    /// The type of the slices of the input that a pattern is matched against.
    fn rust_slice_ty() -> (r: Src)
        ensures
            r@ == Self::slice_ty_spec(),
    ;

    /// The expression that is handed to the runtime to match the pattern.
    fn rust_matcher(&self) -> (r: Src)
        ensures
            r@ == self.matcher_spec(),
    ;
}

/// The identity of a pattern: two patterns are the same when their keys are.
pub trait PatKey {
    /// The numbers that tell the pattern from any other.
    spec fn key_spec(&self) -> Seq<usize>;

    /// The numbers that tell the pattern from any other.
    fn key(&self) -> (r: Vec<usize>)
        ensures
            r@ == self.key_spec(),
    ;
}

impl<P: RustInputPat> RustInputPat for &P {
    open spec fn slice_ty_spec() -> SrcSpec {
        P::slice_ty_spec()
    }

    open spec fn matcher_spec(&self) -> SrcSpec {
        (**self).matcher_spec()
    }

    fn rust_slice_ty() -> (r: Src) {
        P::rust_slice_ty()
    }

    fn rust_matcher(&self) -> (r: Src) {
        (**self).rust_matcher()
    }
}

impl<P: PatKey> PatKey for &P {
    open spec fn key_spec(&self) -> Seq<usize> {
        (**self).key_spec()
    }

    fn key(&self) -> (r: Vec<usize>) {
        (**self).key()
    }
}

/// A pattern on characters, for grammars without a scanner.
pub enum SPat {
    /// The characters of a string, in order.
    String(String),
    /// One character between two, both included.
    Range(char, char),
}

/// What an [`SPat`] is.
pub enum SPatSpec {
    String(Seq<char>),
    Range(char, char),
}

impl View for SPat {
    type V = SPatSpec;

    open spec fn view(&self) -> SPatSpec {
        match self {
            SPat::String(s) => SPatSpec::String(s@),
            SPat::Range(start, end) => SPatSpec::Range(*start, *end),
        }
    }
}

pub const STR_TY: &'static str = "str";

pub const RANGE: &'static str = "$ ..= $";

impl RustInputPat for SPat {
    open spec fn slice_ty_spec() -> SrcSpec {
        fill(STR_TY@, Seq::empty())
    }

    open spec fn matcher_spec(&self) -> SrcSpec {
        match self@ {
            SPatSpec::String(s) => string(s),
            SPatSpec::Range(start, end) => fill(
                RANGE@,
                seq![seq![TokenSpec::Char(start)], seq![TokenSpec::Char(end)]],
            ),
        }
    }

    fn rust_slice_ty() -> (r: Src) {
        quote0(STR_TY)
    }

    fn rust_matcher(&self) -> (r: Src) {
        match self {
            SPat::String(s) => Src::string(s.as_str()),
            SPat::Range(start, end) => quote2(
                RANGE,
                Src::from_token(Token::Char(*start)),
                Src::from_token(Token::Char(*end)),
            ),
        }
    }
}

/// The code points of some characters.
pub open spec fn code_points(text: Seq<char>) -> Seq<usize> {
    text.map_values(|c: char| c as usize)
}

/// The code points of some characters.
pub fn code_points_of(text: &str) -> (r: Vec<usize>)
    ensures
        r@ == code_points(text@),
{
    let mut r: Vec<usize> = Vec::new();
    assert(r@ =~= code_points(text@.take(0)));
    for c in it: text.chars()
        invariant
            it.seq() == text@,
            r@ == code_points(text@.take(it.index())),
    {
        r.push(c as usize);
        assert(r@ =~= code_points(text@.take(it.index() + 1)));
    }
    assert(text@.take(text@.len() as int) =~= text@);
    r
}

impl PatKey for SPat {
    open spec fn key_spec(&self) -> Seq<usize> {
        match self@ {
            SPatSpec::String(s) => seq![0usize] + code_points(s),
            SPatSpec::Range(start, end) => seq![1usize, start as usize, end as usize],
        }
    }

    fn key(&self) -> (r: Vec<usize>) {
        let mut r: Vec<usize> = Vec::new();
        match self {
            SPat::String(s) => {
                let mut points = code_points_of(s.as_str());
                r.push(0);
                r.append(&mut points);
                assert(r@ =~= seq![0usize] + code_points(s@));
            },
            SPat::Range(start, end) => {
                r.push(1);
                r.push(*start as usize);
                r.push(*end as usize);
                assert(r@ =~= seq![1usize, *start as usize, *end as usize]);
            },
        }
        r
    }
}

/// Two characters with the same code point are the same.
pub proof fn code_point_injective(a: char, b: char)
    ensures
        a as usize == b as usize ==> a == b,
{
    assert(a as u32 <= 0x10ffff && b as u32 <= 0x10ffff);
}

/// Two texts with the same code points are the same.
pub proof fn code_points_injective(a: Seq<char>, b: Seq<char>)
    ensures
        code_points(a) == code_points(b) ==> a == b,
{
    if code_points(a) == code_points(b) {
        assert(a.len() == b.len()) by {
            assert(code_points(a).len() == a.len());
            assert(code_points(b).len() == b.len());
        }
        assert forall|i: int| 0 <= i < a.len() implies a[i] == b[i] by {
            assert(code_points(a)[i] == code_points(b)[i]);
            code_point_injective(a[i], b[i]);
        }
        assert(a =~= b);
    }
}

/// Scannerless patterns with the same key are the same pattern.
pub proof fn spat_key_injective(a: SPat, b: SPat)
    ensures
        a.key_spec() == b.key_spec() <==> a@ == b@,
{
    if a.key_spec() == b.key_spec() {
        assert(a.key_spec()[0] == b.key_spec()[0]);
        match (a@, b@) {
            (SPatSpec::String(s), SPatSpec::String(t)) => {
                assert(a.key_spec().skip(1) =~= code_points(s));
                assert(b.key_spec().skip(1) =~= code_points(t));
                code_points_injective(s, t);
            },
            (SPatSpec::Range(s1, e1), SPatSpec::Range(s2, e2)) => {
                assert(a.key_spec()[1] == b.key_spec()[1]);
                assert(a.key_spec()[2] == b.key_spec()[2]);
            },
            _ => {},
        }
    }
}

} // verus!
