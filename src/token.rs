//! The tokens that the scanner produces, and the names that tags carry.

use vstd::prelude::*;

verus! {

/// A scope-relative path: `leading_dots` steps up the scope stack, then a
/// field or method name per segment.
#[derive(Debug)]
pub struct Name {
    pub leading_dots: u32,
    pub segments: Vec<String>,
    pub function_call: bool,
}

/// The mathematical value of a [`Name`].
pub ghost struct SpecName {
    pub leading_dots: nat,
    pub segments: Seq<Seq<char>>,
    pub function_call: bool,
}

impl View for Name {
    type V = SpecName;

    open spec fn view(&self) -> SpecName {
        SpecName {
            leading_dots: self.leading_dots as nat,
            segments: self.segments@.map_values(|s: String| s@),
            function_call: self.function_call,
        }
    }
}

/// The flavours of section that an opening tag can start.
#[derive(Debug, Clone, Copy, PartialEq, Eq, Structural)]
pub enum SectionType {
    /// `{{#name}}`
    Iteration,
    /// `{{^name}}`
    NegativeIteration,
    /// `{{#name?}}`
    Conditional,
    /// `{{^name?}}`
    NegativeConditional,
    /// `{{#name.}}`
    Scope,
}

#[derive(Debug)]
pub enum Token {
    Literal(String),
    Interpolation(Name),
    UnescapedInterpolation(Name),
    SectionOpener(SectionType, Name),
    SectionCloser(Name),
    PartialInclude(String, Name),
}

/// The mathematical value of a [`Token`].
pub ghost enum SpecToken {
    Literal(Seq<char>),
    Interpolation(SpecName),
    UnescapedInterpolation(SpecName),
    SectionOpener(SectionType, SpecName),
    SectionCloser(SpecName),
    PartialInclude(Seq<char>, SpecName),
}

impl View for Token {
    type V = SpecToken;

    open spec fn view(&self) -> SpecToken {
        match self {
            Token::Literal(t) => SpecToken::Literal(t@),
            Token::Interpolation(n) => SpecToken::Interpolation(n@),
            Token::UnescapedInterpolation(n) => SpecToken::UnescapedInterpolation(n@),
            Token::SectionOpener(k, n) => SpecToken::SectionOpener(*k, n@),
            Token::SectionCloser(n) => SpecToken::SectionCloser(n@),
            Token::PartialInclude(p, n) => SpecToken::PartialInclude(p@, n@),
        }
    }
}

/// Compares two strings character by character.
pub fn same_text(a: &String, b: &String) -> (r: bool)
    ensures
        r == (a@ == b@),
{
    a.eq(b)
}

impl Name {
    /// Structural equality: same dots, same segments, same call marker.
    pub fn same(&self, other: &Name) -> (r: bool)
        ensures
            r == (self@ == other@),
    {
        if self.leading_dots != other.leading_dots || self.function_call != other.function_call
            || self.segments.len() != other.segments.len() {
            proof {
                if self@ == other@ {
                    assert(self@.segments.len() == other@.segments.len());
                }
            }
            return false;
        }
        let mut i: usize = 0;
        while i < self.segments.len()
            invariant
                self.segments.len() == other.segments.len(),
                0 <= i <= self.segments.len(),
                forall|j: int| 0 <= j < i ==> self.segments@[j]@ == other.segments@[j]@,
            decreases self.segments.len() - i,
        {
            if !same_text(&self.segments[i], &other.segments[i]) {
                assert(self@.segments[i as int] != other@.segments[i as int]);
                return false;
            }
            i += 1;
        }
        assert(self@.segments =~= other@.segments);
        true
    }
}

impl PartialEq for Name {
    fn eq(&self, other: &Name) -> (r: bool) {
        self.same(other)
    }
}

impl vstd::std_specs::cmp::PartialEqSpecImpl for Name {
    open spec fn obeys_eq_spec() -> bool {
        true
    }

    open spec fn eq_spec(&self, other: &Name) -> bool {
        self@ == other@
    }
}

impl Eq for Name {
}

/// A name of one segment, with no leading dots and no call.
pub fn simple_name(name: &str) -> (r: Name)
    ensures
        r@ == (SpecName { leading_dots: 0, segments: seq![name@], function_call: false }),
{
    let mut segments: Vec<String> = Vec::new();
    segments.push(name.to_owned());
    let r = Name { leading_dots: 0, segments, function_call: false };
    assert(r@.segments =~= seq![name@]);
    r
}

impl Token {
    /// Structural equality of two tokens.
    pub fn same(&self, other: &Token) -> (r: bool)
        ensures
            r == (self@ == other@),
    {
        match (self, other) {
            (Token::Literal(a), Token::Literal(b)) => same_text(a, b),
            (Token::Interpolation(a), Token::Interpolation(b)) => a.same(b),
            (Token::UnescapedInterpolation(a), Token::UnescapedInterpolation(b)) => a.same(b),
            (Token::SectionOpener(k, a), Token::SectionOpener(l, b)) => *k == *l && a.same(b),
            (Token::SectionCloser(a), Token::SectionCloser(b)) => a.same(b),
            (Token::PartialInclude(p, a), Token::PartialInclude(q, b)) => same_text(p, q) && a.same(b),
            _ => false,
        }
    }
}

impl PartialEq for Token {
    fn eq(&self, other: &Token) -> (r: bool) {
        self.same(other)
    }
}

impl vstd::std_specs::cmp::PartialEqSpecImpl for Token {
    open spec fn obeys_eq_spec() -> bool {
        true
    }

    open spec fn eq_spec(&self, other: &Token) -> bool {
        self@ == other@
    }
}

impl Eq for Token {
}

} // verus!
