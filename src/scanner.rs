//! Splits template text into tokens, and reads the names inside tags.

use vstd::prelude::*;
use crate::text::{chars_of, drop_space, skip_space, string_of, trim, trim_end, trim_start};
use crate::token::{Name, SectionType, SpecName, SpecToken, Token};

verus! {

/// A malformed tag or name.
#[derive(Debug, PartialEq, Eq, Structural)]
pub enum Error {
    /// The text does not have the expected shape.
    Mismatch,
    /// The tag that opens at this character offset of the template is malformed.
    InvalidTag { position: usize },
}

// ---------------------------------------------------------------------------
// Outside checks on name segments

/// What `syn::parse_ident` accepts: a Rust identifier that is not a keyword.
pub uninterp spec fn rust_ident(s: Seq<char>) -> bool;

/// Relies on `syn::parse_ident`: whether the text is one Rust identifier.
#[verifier::external_body]
fn is_rust_ident(s: &str) -> (r: bool)
    ensures
        r == rust_ident(s@),
{
    syn::parse_ident(s).is_ok()
}

pub open spec fn is_digit(c: char) -> bool {
    '0' <= c && c <= '9'
}

/// The number that a run of decimal digits spells.
pub open spec fn decimal_value(d: Seq<char>) -> nat
    decreases d.len(),
{
    if d.len() == 0 {
        0
    } else {
        decimal_value(d.drop_last()) * 10 + (d.last() as nat - '0' as nat) as nat
    }
}

/// Text that `u32::from_str` accepts: an optional `+`, then one or more decimal
/// digits whose value fits in a `u32`.
pub open spec fn u32_text(s: Seq<char>) -> bool {
    let d = if s.len() > 0 && s[0] == '+' { s.drop_first() } else { s };
    &&& d.len() > 0
    &&& forall|i: int| 0 <= i < d.len() ==> is_digit(#[trigger] d[i])
    &&& decimal_value(d) <= u32::MAX
}

/// Relies on `u32::from_str`: whether the text is a decimal `u32`.
#[verifier::external_body]
fn is_u32_text(s: &str) -> (r: bool)
    ensures
        r == u32_text(s@),
{
    s.parse::<u32>().is_ok()
}

/// Relies on `num::cast::cast`: `Some` exactly when the count fits in a `u32`.
#[verifier::external_body]
fn count_to_u32(n: usize) -> (r: Option<u32>)
    ensures
        n <= u32::MAX ==> r == Some(n as u32),
        n > u32::MAX ==> r is None,
{
    num::cast::cast(n)
}

// ---------------------------------------------------------------------------
// The name grammar

/// A path segment: an identifier, or a non-negative integer for positional fields.
pub open spec fn segment_ok(p: Seq<char>) -> bool {
    rust_ident(p) || u32_text(p)
}

/// Index of the first `.` of `s` at or after `from`, or `s.len()` if there is none.
pub open spec fn next_dot(s: Seq<char>, from: int) -> int
    decreases s.len() - from,
{
    if from >= s.len() || from < 0 {
        s.len() as int
    } else if s[from] == '.' {
        from
    } else {
        next_dot(s, from + 1)
    }
}

/// The pieces of `s[from..]` between dots.
pub open spec fn split_dots_from(s: Seq<char>, from: int) -> Seq<Seq<char>>
    decreases s.len() - from,
{
    let k = next_dot(s, from);
    if from < 0 || from > s.len() {
        Seq::empty()
    } else if k >= s.len() {
        seq![s.subrange(from, s.len() as int)]
    } else {
        proof {
            lemma_next_dot_bounds(s, from);
        }
        seq![s.subrange(from, k)] + split_dots_from(s, k + 1)
    }
}

pub open spec fn all_segments_ok(segs: Seq<Seq<char>>) -> bool {
    forall|i: int| 0 <= i < segs.len() ==> segment_ok(#[trigger] segs[i])
}

/// The segments of a dotted path; an empty path has none.
pub open spec fn segments_of(body: Seq<char>) -> Seq<Seq<char>> {
    if body.len() == 0 {
        Seq::empty()
    } else {
        split_dots_from(body, 0)
    }
}

/// The number of `.` characters that start `s`.
pub open spec fn leading_dot_count(s: Seq<char>) -> nat
    decreases s.len(),
{
    if s.len() > 0 && s[0] == '.' {
        1 + leading_dot_count(s.drop_first())
    } else {
        0
    }
}

pub open spec fn ends_with_call(r: Seq<char>) -> bool {
    r.len() >= 2 && r[r.len() - 2] == '(' && r[r.len() - 1] == ')'
}

/// The name that the text inside a tag spells, if it is well formed.
///
/// White space around the name is ignored; leading dots count scope levels; a
/// trailing `()` marks a call of the last segment.
pub open spec fn name_spec(s: Seq<char>) -> Option<SpecName> {
    let t = trim(s);
    let dots = leading_dot_count(t);
    let r = trim_start(t.subrange(dots as int, t.len() as int));
    let call = ends_with_call(r);
    let body = if call { trim_end(r.subrange(0, r.len() - 2)) } else { r };
    let segments = segments_of(body);
    if dots == 0 && body.len() == 0 {
        None
    } else if call && body.len() == 0 {
        None
    } else if !all_segments_ok(segments) {
        None
    } else if dots > u32::MAX {
        None
    } else {
        Some(SpecName { leading_dots: dots, segments, function_call: call })
    }
}

pub proof fn lemma_next_dot_bounds(s: Seq<char>, from: int)
    requires
        0 <= from <= s.len(),
    ensures
        from <= next_dot(s, from) <= s.len(),
        next_dot(s, from) < s.len() ==> s[next_dot(s, from)] == '.',
        forall|j: int| from <= j < next_dot(s, from) ==> s[j] != '.',
    decreases s.len() - from,
{
    if from < s.len() && s[from] != '.' {
        lemma_next_dot_bounds(s, from + 1);
    }
}

proof fn lemma_next_dot_is(s: Seq<char>, from: int, k: int)
    requires
        0 <= from <= k <= s.len(),
        forall|j: int| from <= j < k ==> s[j] != '.',
        k == s.len() || s[k] == '.',
    ensures
        next_dot(s, from) == k,
    decreases k - from,
{
    if from < k {
        lemma_next_dot_is(s, from + 1, k);
    }
}

proof fn lemma_leading_dots(s: Seq<char>, k: int)
    requires
        0 <= k <= s.len(),
        forall|j: int| 0 <= j < k ==> s[j] == '.',
        k == s.len() || s[k] != '.',
    ensures
        leading_dot_count(s) == k,
    decreases k,
{
    if k > 0 {
        assert forall|j: int| 0 <= j < k - 1 implies s.drop_first()[j] == '.' by {
            assert(s[j + 1] == '.');
        }
        lemma_leading_dots(s.drop_first(), k - 1);
    }
}

/// Relates the view of a vector of strings to the pieces it was built from.
pub open spec fn strings_view(v: Seq<String>) -> Seq<Seq<char>> {
    v.map_values(|x: String| x@)
}

/// The segments of the path `s[lo..hi]`, each checked; `None` if one is malformed.
pub fn segments_in(s: &Vec<char>, lo: usize, hi: usize) -> (r: Option<Vec<String>>)
    requires
        lo <= hi <= s@.len(),
    ensures
        ({
            let pieces = segments_of(s@.subrange(lo as int, hi as int));
            match r {
                Some(v) => strings_view(v@) == pieces && all_segments_ok(pieces),
                None => !all_segments_ok(pieces),
            }
        }),
{
    let ghost b = s@.subrange(lo as int, hi as int);
    let mut out: Vec<String> = Vec::new();
    if lo == hi {
        assert(strings_view(out@) =~= Seq::<Seq<char>>::empty());
        return Some(out);
    }
    let mut start = lo;
    let mut k = lo;
    loop
        invariant
            lo <= start <= k <= hi <= s@.len(),
            lo < hi,
            b == s@.subrange(lo as int, hi as int),
            forall|j: int| start <= j < k ==> s@[j] != '.',
            strings_view(out@) + split_dots_from(b, start - lo) == split_dots_from(b, 0),
            forall|i: int| 0 <= i < out@.len() ==> segment_ok(#[trigger] strings_view(out@)[i]),
        decreases hi - k, hi - start,
    {
        if k == hi || s[k] == '.' {
            proof {
                assert forall|j: int| start - lo <= j < k - lo implies b[j] != '.' by {
                    assert(b[j] == s@[j + lo]);
                }
                lemma_next_dot_is(b, start - lo, k - lo);
            }
            let piece = string_of(s, start, k);
            assert(piece@ == b.subrange(start - lo, k - lo));
            let ok = is_rust_ident(piece.as_str()) || is_u32_text(piece.as_str());
            if !ok {
                proof {
                    let pieces = split_dots_from(b, 0);
                    let idx = out@.len() as int;
                    if k == hi {
                        assert(split_dots_from(b, start - lo) == seq![b.subrange(start - lo, b.len() as int)]);
                    } else {
                        assert(split_dots_from(b, start - lo) == seq![b.subrange(start - lo, k - lo)] + split_dots_from(b, k + 1 - lo));
                    }
                    assert(split_dots_from(b, start - lo)[0] == piece@);
                    assert((strings_view(out@) + split_dots_from(b, start - lo))[idx] == piece@);
                    assert(!segment_ok(pieces[idx]));
                    assert(segments_of(b) == pieces);
                    assert(pieces[idx] == piece@);
                }
                return None;
            }
            let ghost before = out@;
            out.push(piece);
            proof {
                assert(strings_view(out@) =~= strings_view(before).push(piece@));
                assert forall|i: int| 0 <= i < out@.len() implies segment_ok(#[trigger] strings_view(out@)[i]) by {
                    if i < before.len() {
                        assert(strings_view(out@)[i] == strings_view(before)[i]);
                    }
                }
            }
            if k == hi {
                assert(split_dots_from(b, start - lo) =~= seq![piece@]);
                assert(strings_view(out@) =~= split_dots_from(b, 0));
                return Some(out);
            }
            assert(split_dots_from(b, start - lo) =~= seq![piece@] + split_dots_from(b, k + 1 - lo));
            assert(strings_view(out@) + split_dots_from(b, k + 1 - lo) =~= split_dots_from(b, 0));
            k += 1;
            start = k;
        } else {
            k += 1;
        }
    }
}

/// Returns the name that `s[lo..hi]` spells, or `None` where `name_spec` has none.
pub fn name_in(s: &Vec<char>, lo: usize, hi: usize) -> (r: Option<Name>)
    requires
        lo <= hi <= s@.len(),
    ensures
        match r {
            Some(n) => name_spec(s@.subrange(lo as int, hi as int)) == Some(n@),
            None => name_spec(s@.subrange(lo as int, hi as int)) is None,
        },
{
    let ghost x = s@.subrange(lo as int, hi as int);
    let a = skip_space(s, lo, hi);
    let b = drop_space(s, a, hi);
    let ghost t = trim(x);
    assert(t == s@.subrange(a as int, b as int));
    let mut d = a;
    while d < b && s[d] == '.'
        invariant
            a <= d <= b,
            b <= s@.len(),
            forall|j: int| a <= j < d ==> s@[j] == '.',
        decreases b - d,
    {
        d += 1;
    }
    proof {
        assert forall|j: int| 0 <= j < d - a implies t[j] == '.' by {
            assert(t[j] == s@[j + a]);
        }
        lemma_leading_dots(t, d - a);
    }
    let dots = d - a;
    let c = skip_space(s, d, b);
    assert(t.subrange(dots as int, t.len() as int) =~= s@.subrange(d as int, b as int));
    let ghost r = s@.subrange(c as int, b as int);
    assert(r == trim_start(t.subrange(dots as int, t.len() as int)));
    assert(leading_dot_count(t) == dots);
    let call = b - c >= 2 && s[b - 2] == '(' && s[b - 1] == ')';
    assert(call == ends_with_call(r));
    let e = if call {
        let e = drop_space(s, c, b - 2);
        assert(r.subrange(0, r.len() - 2) =~= s@.subrange(c as int, b - 2));
        e
    } else {
        b
    };
    assert(s@.subrange(c as int, e as int) == if call { trim_end(r.subrange(0, r.len() - 2)) } else { r });
    if dots == 0 && e == c {
        return None;
    }
    if call && e == c {
        return None;
    }
    let segments = match segments_in(s, c, e) {
        Some(v) => v,
        None => {
            proof {
                let body = s@.subrange(c as int, e as int);
                let segs = segments_of(body);
                assert(!all_segments_ok(segs));
                assert(t.subrange(dots as int, t.len() as int) =~= s@.subrange(d as int, b as int));
                assert(name_spec(x) is None);
            }
            return None;
        },
    };
    let leading_dots = match count_to_u32(dots) {
        Some(n) => n,
        None => {
            return None;
        },
    };
    let n = Name { leading_dots, segments, function_call: call };
    assert(n@.segments == strings_view(n.segments@));
    Some(n)
}

// ---------------------------------------------------------------------------
// Tags

pub open spec fn tag_opener() -> Seq<char> {
    seq!['{', '{']
}

/// The delimiter that ends a tag whose first inner character is `peek`.
pub open spec fn tag_closer(peek: char) -> Seq<char> {
    if peek == '{' {
        seq!['}', '}', '}']
    } else {
        seq!['}', '}']
    }
}

pub open spec fn occurs_at(s: Seq<char>, pat: Seq<char>, k: int) -> bool {
    0 <= k && k + pat.len() <= s.len() && s.subrange(k, k + pat.len()) == pat
}

/// The first position at or after `from` where `pat` occurs in `s`.
pub open spec fn find_from(s: Seq<char>, pat: Seq<char>, from: int) -> Option<int>
    decreases s.len() - from,
{
    if from < 0 || from >= s.len() || from + pat.len() > s.len() {
        None
    } else if occurs_at(s, pat, from) {
        Some(from)
    } else {
        find_from(s, pat, from + 1)
    }
}

pub proof fn lemma_find_from(s: Seq<char>, pat: Seq<char>, from: int)
    requires
        0 <= from,
        pat.len() > 0,
    ensures
        match find_from(s, pat, from) {
            Some(k) => from <= k && occurs_at(s, pat, k)
                && forall|j: int| from <= j < k ==> !occurs_at(s, pat, j),
            None => forall|j: int| from <= j ==> !occurs_at(s, pat, j),
        },
    decreases s.len() - from,
{
    if from < 0 || from >= s.len() || from + pat.len() > s.len() {
    } else if !occurs_at(s, pat, from) {
        lemma_find_from(s, pat, from + 1);
    }
}

/// Section opener text (after trimming): `#` or `^`, a name, and an optional
/// `?` (conditional) or `.` (scope) suffix.
pub open spec fn opener_spec(meat: Seq<char>) -> Option<SpecToken> {
    let t = trim(meat);
    if t.len() == 0 || (t[0] != '#' && t[0] != '^') {
        None
    } else {
        let positive = t[0] == '#';
        let inner = t.drop_first();
        let conditional = inner.len() > 0 && inner.last() == '?';
        let scope = !conditional && inner.len() > 1 && inner.last() == '.';
        let body = if conditional || scope { inner.drop_last() } else { inner };
        match name_spec(body) {
            None => None,
            Some(n) => if scope && !positive {
                None
            } else {
                let kind = if conditional {
                    if positive { SectionType::Conditional } else { SectionType::NegativeConditional }
                } else if scope {
                    SectionType::Scope
                } else if positive {
                    SectionType::Iteration
                } else {
                    SectionType::NegativeIteration
                };
                Some(SpecToken::SectionOpener(kind, n))
            },
        }
    }
}

/// Partial include text after the `>`: a partial name, then optionally a root
/// name after the first space; without one the root is the innermost scope.
pub open spec fn partial_spec(rest: Seq<char>) -> Option<SpecToken> {
    let t = trim(rest);
    let k = first_space(t, 0);
    if k >= t.len() {
        Some(SpecToken::PartialInclude(t, default_partial_root()))
    } else {
        match name_spec(t.subrange(k + 1, t.len() as int)) {
            None => None,
            Some(n) => Some(SpecToken::PartialInclude(t.subrange(0, k), n)),
        }
    }
}

/// The root of a partial include that names none: one level up, no segments.
pub open spec fn default_partial_root() -> SpecName {
    SpecName { leading_dots: 1, segments: Seq::empty(), function_call: false }
}

/// Index of the first `' '` of `s` at or after `from`, or `s.len()`.
pub open spec fn first_space(s: Seq<char>, from: int) -> int
    decreases s.len() - from,
{
    if from >= s.len() || from < 0 {
        s.len() as int
    } else if s[from] == ' ' {
        from
    } else {
        first_space(s, from + 1)
    }
}

pub open spec fn some_token(n: Option<SpecName>, f: spec_fn(SpecName) -> SpecToken) -> Option<SpecToken> {
    match n {
        Some(n) => Some(f(n)),
        None => None,
    }
}

/// The token for the text between the delimiters of a tag.
pub open spec fn tag_body_spec(meat: Seq<char>) -> Option<SpecToken> {
    if meat.len() == 0 {
        None
    } else if meat[0] == '#' || meat[0] == '^' {
        opener_spec(meat)
    } else if meat[0] == '/' {
        some_token(name_spec(meat.drop_first()), |n: SpecName| SpecToken::SectionCloser(n))
    } else if meat[0] == '>' {
        partial_spec(meat.drop_first())
    } else if meat[0] == '{' {
        some_token(name_spec(meat.drop_first()), |n: SpecName| SpecToken::UnescapedInterpolation(n))
    } else {
        some_token(name_spec(meat), |n: SpecName| SpecToken::Interpolation(n))
    }
}

/// The tag that starts at `i`: its token and the position just past it.
pub open spec fn tag_at(s: Seq<char>, i: int) -> Option<(int, SpecToken)> {
    let j = i + 2;
    if !occurs_at(s, tag_opener(), i) || j >= s.len() {
        None
    } else {
        let closer = tag_closer(s[j]);
        match find_from(s, closer, j) {
            None => None,
            Some(e) => match tag_body_spec(s.subrange(j, e)) {
                None => None,
                Some(t) => Some((e + closer.len(), t)),
            },
        }
    }
}

pub proof fn lemma_tag_at(s: Seq<char>, i: int)
    requires
        0 <= i,
    ensures
        tag_at(s, i) matches Some((e, _)) ==> i + 4 <= e <= s.len(),
{
    if occurs_at(s, tag_opener(), i) && i + 2 < s.len() {
        lemma_find_from(s, tag_closer(s[i + 2]), i + 2);
    }
}

/// The tokens of `s[i..]`: literal runs up to each `{{`, then the tag there.
/// A malformed tag fails with its position.
pub open spec fn scan_from(s: Seq<char>, i: int) -> Result<Seq<SpecToken>, int>
    decreases s.len() - i,
{
    if i < 0 || i >= s.len() {
        Ok(Seq::empty())
    } else {
        match find_from(s, tag_opener(), i) {
            None => Ok(seq![SpecToken::Literal(s.subrange(i, s.len() as int))]),
            Some(k) => {
                let lit = if k > i { seq![SpecToken::Literal(s.subrange(i, k))] } else { Seq::empty() };
                proof {
                    lemma_find_from(s, tag_opener(), i);
                    lemma_tag_at(s, k);
                }
                match tag_at(s, k) {
                    None => Err(k),
                    Some((e, t)) => match scan_from(s, e) {
                        Ok(rest) => Ok(lit + seq![t] + rest),
                        Err(p) => Err(p),
                    },
                }
            },
        }
    }
}

/// The tokens of a whole template.
pub open spec fn scan(s: Seq<char>) -> Result<Seq<SpecToken>, int> {
    scan_from(s, 0)
}

pub open spec fn token_opt(r: Option<Token>) -> Option<SpecToken> {
    match r {
        Some(t) => Some(t@),
        None => None,
    }
}

pub open spec fn tokens_view(v: Seq<Token>) -> Seq<SpecToken> {
    v.map_values(|t: Token| t@)
}

// ---------------------------------------------------------------------------
// Executable tag reading

/// Whether `pat` occurs in `s` at `k`.
fn occurs_in(s: &Vec<char>, pat: &Vec<char>, k: usize) -> (r: bool)
    ensures
        r == occurs_at(s@, pat@, k as int),
{
    if k > s.len() || pat.len() > s.len() - k {
        return false;
    }
    let mut j: usize = 0;
    while j < pat.len()
        invariant
            k + pat@.len() <= s@.len(),
            k + pat.len() <= s.len(),
            0 <= j <= pat@.len(),
            forall|m: int| 0 <= m < j ==> s@[k + m] == pat@[m],
        decreases pat.len() - j,
    {
        let at = k + j;
        if s[at] != pat[j] {
            assert(s@.subrange(k as int, k + pat@.len())[j as int] != pat@[j as int]);
            return false;
        }
        j += 1;
    }
    assert(s@.subrange(k as int, k + pat@.len()) =~= pat@);
    true
}

/// The first position at or after `from` where `pat` occurs in `s`.
fn find_in(s: &Vec<char>, pat: &Vec<char>, from: usize) -> (r: Option<usize>)
    requires
        pat@.len() > 0,
    ensures
        match r {
            Some(k) => find_from(s@, pat@, from as int) == Some(k as int),
            None => find_from(s@, pat@, from as int) is None,
        },
{
    let mut k = from;
    while k < s.len() && pat.len() <= s.len() - k
        invariant
            from <= k,
            find_from(s@, pat@, from as int) == find_from(s@, pat@, k as int),
        decreases s.len() - k,
    {
        if occurs_in(s, pat, k) {
            return Some(k);
        }
        k += 1;
    }
    None
}

fn token_for_name(n: Option<Name>, kind: u8) -> (r: Option<Token>)
    requires
        kind < 3,
    ensures
        match n {
            None => r is None,
            Some(n) => r is Some && r->0@ == (if kind == 0 {
                SpecToken::Interpolation(n@)
            } else if kind == 1 {
                SpecToken::UnescapedInterpolation(n@)
            } else {
                SpecToken::SectionCloser(n@)
            }),
        },
{
    match n {
        None => None,
        Some(n) => Some(if kind == 0 {
            Token::Interpolation(n)
        } else if kind == 1 {
            Token::UnescapedInterpolation(n)
        } else {
            Token::SectionCloser(n)
        }),
    }
}

/// The section opener that `s[lo..hi]` spells.
fn opener_in(s: &Vec<char>, lo: usize, hi: usize) -> (r: Option<Token>)
    requires
        lo <= hi <= s@.len(),
    ensures
        token_opt(r) == opener_spec(s@.subrange(lo as int, hi as int)),
{
    let ghost meat = s@.subrange(lo as int, hi as int);
    let a = skip_space(s, lo, hi);
    let b = drop_space(s, a, hi);
    let ghost t = trim(meat);
    assert(t == s@.subrange(a as int, b as int));
    if a == b || (s[a] != '#' && s[a] != '^') {
        return None;
    }
    let positive = s[a] == '#';
    let c = a + 1;
    let ghost inner = t.drop_first();
    assert(inner =~= s@.subrange(c as int, b as int));
    let conditional = b > c && s[b - 1] == '?';
    let scope = !conditional && b - c > 1 && s[b - 1] == '.';
    let e = if conditional || scope { b - 1 } else { b };
    assert(s@.subrange(c as int, e as int) == (if conditional || scope { inner.drop_last() } else { inner }));
    let n = match name_in(s, c, e) {
        None => {
            return None;
        },
        Some(n) => n,
    };
    if scope && !positive {
        return None;
    }
    let kind = if conditional {
        if positive { SectionType::Conditional } else { SectionType::NegativeConditional }
    } else if scope {
        SectionType::Scope
    } else if positive {
        SectionType::Iteration
    } else {
        SectionType::NegativeIteration
    };
    Some(Token::SectionOpener(kind, n))
}

/// The partial include that `s[lo..hi]` (the text after `>`) spells.
fn partial_in(s: &Vec<char>, lo: usize, hi: usize) -> (r: Option<Token>)
    requires
        lo <= hi <= s@.len(),
    ensures
        token_opt(r) == partial_spec(s@.subrange(lo as int, hi as int)),
{
    let ghost rest = s@.subrange(lo as int, hi as int);
    let a = skip_space(s, lo, hi);
    let b = drop_space(s, a, hi);
    let ghost t = trim(rest);
    assert(t == s@.subrange(a as int, b as int));
    let mut k = a;
    while k < b && s[k] != ' '
        invariant
            a <= k <= b <= s@.len(),
            t == s@.subrange(a as int, b as int),
            first_space(t, k - a) == first_space(t, 0),
        decreases b - k,
    {
        assert(t[k - a] == s@[k as int]);
        k += 1;
    }
    if k < b {
        assert(t[k - a] == s@[k as int]);
    }
    assert(first_space(t, k - a) == k - a);
    if k == b {
        let mut segments: Vec<String> = Vec::new();
        let root = Name { leading_dots: 1, segments, function_call: false };
        assert(root@.segments =~= Seq::<Seq<char>>::empty());
        return Some(Token::PartialInclude(string_of(s, a, b), root));
    }
    assert(t.subrange(k - a + 1, t.len() as int) =~= s@.subrange(k + 1, b as int));
    assert(t.subrange(0, k - a) =~= s@.subrange(a as int, k as int));
    match name_in(s, k + 1, b) {
        None => None,
        Some(n) => Some(Token::PartialInclude(string_of(s, a, k), n)),
    }
}

/// The token for the text `s[lo..hi]` between a tag's delimiters.
fn tag_body_in(s: &Vec<char>, lo: usize, hi: usize) -> (r: Option<Token>)
    requires
        lo <= hi <= s@.len(),
    ensures
        token_opt(r) == tag_body_spec(s@.subrange(lo as int, hi as int)),
{
    let ghost meat = s@.subrange(lo as int, hi as int);
    if lo == hi {
        return None;
    }
    let c = s[lo];
    assert(meat[0] == c);
    assert(meat.drop_first() =~= s@.subrange(lo + 1, hi as int));
    if c == '#' || c == '^' {
        opener_in(s, lo, hi)
    } else if c == '/' {
        token_for_name(name_in(s, lo + 1, hi), 2)
    } else if c == '>' {
        partial_in(s, lo + 1, hi)
    } else if c == '{' {
        token_for_name(name_in(s, lo + 1, hi), 1)
    } else {
        token_for_name(name_in(s, lo, hi), 0)
    }
}

/// Reads the tag that starts at `i`: its token and the position just past it.
fn tag_in(s: &Vec<char>, i: usize) -> (r: Option<(usize, Token)>)
    requires
        i <= s@.len(),
    ensures
        match r {
            Some((e, t)) => tag_at(s@, i as int) == Some((e as int, t@)),
            None => tag_at(s@, i as int) is None,
        },
{
    let opener = vec!['{', '{'];
    assert(opener@ =~= tag_opener());
    if !occurs_in(s, &opener, i) || s.len() - i <= 2 {
        return None;
    }
    let j = i + 2;
    let closer = if s[j] == '{' { vec!['}', '}', '}'] } else { vec!['}', '}'] };
    assert(closer@ =~= tag_closer(s@[j as int]));
    let e = match find_in(s, &closer, j) {
        None => {
            return None;
        },
        Some(e) => e,
    };
    proof {
        lemma_find_from(s@, closer@, j as int);
    }
    match tag_body_in(s, j, e) {
        None => None,
        Some(t) => Some((e + closer.len(), t)),
    }
}

pub open spec fn prepend(p: Seq<SpecToken>, r: Result<Seq<SpecToken>, int>) -> Result<Seq<SpecToken>, int> {
    match r {
        Ok(x) => Ok(p + x),
        Err(e) => Err(e),
    }
}

fn literal_token(s: &Vec<char>, lo: usize, hi: usize) -> (r: Token)
    requires
        lo <= hi <= s@.len(),
    ensures
        r@ == SpecToken::Literal(s@.subrange(lo as int, hi as int)),
{
    Token::Literal(string_of(s, lo, hi))
}

/// Scans the characters of a template into tokens.
pub fn scan_chars(s: &Vec<char>) -> (r: Result<Vec<Token>, Error>)
    ensures
        match r {
            Ok(v) => scan(s@) == Ok::<Seq<SpecToken>, int>(tokens_view(v@)),
            Err(Error::InvalidTag { position }) => scan(s@) == Err::<Seq<SpecToken>, int>(position as int),
            Err(Error::Mismatch) => false,
        },
{
    let mut toks: Vec<Token> = Vec::new();
    let mut i: usize = 0;
    let opener = vec!['{', '{'];
    assert(opener@ =~= tag_opener());
    assert(tokens_view(toks@) =~= Seq::<SpecToken>::empty());
    assert(scan(s@) =~= prepend(tokens_view(toks@), scan_from(s@, 0))) by {
        match scan_from(s@, 0) {
            Ok(x) => {
                assert(Seq::<SpecToken>::empty() + x =~= x);
            },
            Err(_) => {},
        }
    }
    loop
        invariant
            i <= s@.len(),
            opener@ == tag_opener(),
            scan(s@) == prepend(tokens_view(toks@), scan_from(s@, i as int)),
        decreases s@.len() - i,
    {
        let ghost before = tokens_view(toks@);
        if i >= s.len() {
            assert(before + Seq::<SpecToken>::empty() =~= before);
            return Ok(toks);
        }
        proof {
            lemma_find_from(s@, tag_opener(), i as int);
        }
        match find_in(s, &opener, i) {
            None => {
                toks.push(literal_token(s, i, s.len()));
                assert(tokens_view(toks@) =~= before + seq![SpecToken::Literal(s@.subrange(i as int, s@.len() as int))]);
                return Ok(toks);
            },
            Some(k) => {
                proof {
                    lemma_tag_at(s@, k as int);
                }
                let ghost lit = if k > i { seq![SpecToken::Literal(s@.subrange(i as int, k as int))] } else { Seq::empty() };
                if k > i {
                    toks.push(literal_token(s, i, k));
                }
                assert(tokens_view(toks@) =~= before + lit);
                match tag_in(s, k) {
                    None => {
                        return Err(Error::InvalidTag { position: k });
                    },
                    Some((e, t)) => {
                        let ghost mid = tokens_view(toks@);
                        toks.push(t);
                        assert(tokens_view(toks@) =~= mid.push(t@));
                        proof {
                            match scan_from(s@, e as int) {
                                Ok(rest) => {
                                    assert(before + (lit + seq![t@] + rest) =~= tokens_view(toks@) + rest);
                                },
                                Err(_) => {},
                            }
                        }
                        i = e;
                    },
                }
            },
        }
    }
}

// ---------------------------------------------------------------------------
// The string-level interface

/// Whether `c` is anything but a dot.
pub fn not_dot(ch: char) -> (r: bool)
    ensures
        r == (ch != '.'),
{
    ch != '.'
}

/// Strips `expected` from the front of `input`.
pub fn consume<'a>(input: &'a str, expected: &str) -> (r: Result<&'a str, Error>)
    ensures
        match r {
            Ok(rest) => expected@.len() <= input@.len()
                && input@.subrange(0, expected@.len() as int) == expected@
                && rest@ == input@.subrange(expected@.len() as int, input@.len() as int),
            Err(e) => e == Error::Mismatch && !(expected@.len() <= input@.len()
                && input@.subrange(0, expected@.len() as int) == expected@),
        },
{
    let s = chars_of(input);
    let p = chars_of(expected);
    if p.len() == 0 {
        assert(input@.subrange(0, 0) =~= expected@);
        return Ok(input.substring_char(0, s.len()));
    }
    if occurs_in(&s, &p, 0) {
        Ok(input.substring_char(p.len(), s.len()))
    } else {
        Err(Error::Mismatch)
    }
}

/// Succeeds on empty input only.
pub fn at_end(input: &str) -> (r: Result<(), Error>)
    ensures
        r is Ok <==> input@.len() == 0,
        r is Err ==> r == Err::<(), Error>(Error::Mismatch),
{
    if input.unicode_len() == 0 {
        Ok(())
    } else {
        Err(Error::Mismatch)
    }
}

/// Reads a name from the text inside a tag. The rest returned is always empty.
pub fn name<'a>(input: &'a str) -> (r: Result<(&'a str, Name), Error>)
    ensures
        match r {
            Ok((rest, n)) => rest@.len() == 0 && name_spec(input@) == Some(n@),
            Err(e) => e == Error::Mismatch && name_spec(input@) is None,
        },
{
    let s = chars_of(input);
    assert(s@.subrange(0, s@.len() as int) =~= input@);
    match name_in(&s, 0, s.len()) {
        Some(n) => Ok((input.substring_char(0, 0), n)),
        None => Err(Error::Mismatch),
    }
}

/// Splits a dotted path into checked segments; the empty path has none.
pub fn segmented_name(input: &str) -> (r: Result<Vec<String>, Error>)
    ensures
        match r {
            Ok(v) => strings_view(v@) == segments_of(input@) && all_segments_ok(segments_of(input@)),
            Err(e) => e == Error::Mismatch && !all_segments_ok(segments_of(input@)),
        },
{
    let s = chars_of(input);
    assert(s@.subrange(0, s@.len() as int) =~= input@);
    match segments_in(&s, 0, s.len()) {
        Some(v) => Ok(v),
        None => Err(Error::Mismatch),
    }
}

pub open spec fn token_result(r: Result<Token, Error>) -> Option<SpecToken> {
    match r {
        Ok(t) => Some(t@),
        Err(_) => None,
    }
}

fn to_result(t: Option<Token>) -> (r: Result<Token, Error>)
    ensures
        token_result(r) == token_opt(t),
        r is Err ==> r == Err::<Token, Error>(Error::Mismatch),
{
    match t {
        Some(t) => Ok(t),
        None => Err(Error::Mismatch),
    }
}

/// An escaped interpolation: the whole text is a name.
pub fn interpolation(input: &str) -> (r: Result<Token, Error>)
    ensures
        token_result(r) == some_token(name_spec(input@), |n: SpecName| SpecToken::Interpolation(n)),
        r is Err ==> r == Err::<Token, Error>(Error::Mismatch),
{
    let s = chars_of(input);
    assert(s@.subrange(0, s@.len() as int) =~= input@);
    to_result(token_for_name(name_in(&s, 0, s.len()), 0))
}

/// An unescaped interpolation: `{` and then a name.
pub fn unescaped_interpolation(input: &str) -> (r: Result<Token, Error>)
    ensures
        token_result(r) == (if input@.len() > 0 && input@[0] == '{' {
            some_token(name_spec(input@.drop_first()), |n: SpecName| SpecToken::UnescapedInterpolation(n))
        } else {
            None
        }),
        r is Err ==> r == Err::<Token, Error>(Error::Mismatch),
{
    let s = chars_of(input);
    if s.len() == 0 || s[0] != '{' {
        return Err(Error::Mismatch);
    }
    assert(s@.subrange(1, s@.len() as int) =~= input@.drop_first());
    to_result(token_for_name(name_in(&s, 1, s.len()), 1))
}

/// A section opener: `#` or `^`, a name, and an optional `?` or `.` suffix.
pub fn section_opener(input: &str) -> (r: Result<Token, Error>)
    ensures
        token_result(r) == opener_spec(input@),
        r is Err ==> r == Err::<Token, Error>(Error::Mismatch),
{
    let s = chars_of(input);
    assert(s@.subrange(0, s@.len() as int) =~= input@);
    to_result(opener_in(&s, 0, s.len()))
}

/// A section closer: `/` and then a name.
pub fn section_closer(input: &str) -> (r: Result<Token, Error>)
    ensures
        token_result(r) == (if input@.len() > 0 && input@[0] == '/' {
            some_token(name_spec(input@.drop_first()), |n: SpecName| SpecToken::SectionCloser(n))
        } else {
            None
        }),
        r is Err ==> r == Err::<Token, Error>(Error::Mismatch),
{
    let s = chars_of(input);
    if s.len() == 0 || s[0] != '/' {
        return Err(Error::Mismatch);
    }
    assert(s@.subrange(1, s@.len() as int) =~= input@.drop_first());
    to_result(token_for_name(name_in(&s, 1, s.len()), 2))
}

/// A partial include: `>`, a partial name, and an optional root name.
pub fn partial_include(input: &str) -> (r: Result<Token, Error>)
    ensures
        token_result(r) == (if input@.len() > 0 && input@[0] == '>' {
            partial_spec(input@.drop_first())
        } else {
            None
        }),
        r is Err ==> r == Err::<Token, Error>(Error::Mismatch),
{
    let s = chars_of(input);
    if s.len() == 0 || s[0] != '>' {
        return Err(Error::Mismatch);
    }
    assert(s@.subrange(1, s@.len() as int) =~= input@.drop_first());
    to_result(partial_in(&s, 1, s.len()))
}

/// Reads the tag at the start of `input`, returning the text after it.
pub fn bart_tag<'a>(input: &'a str) -> (r: Result<(&'a str, Token), Error>)
    ensures
        match r {
            Ok((rest, t)) => tag_at(input@, 0) matches Some((e, u)) && u == t@
                && rest@ == input@.subrange(e, input@.len() as int),
            Err(e) => e == Error::Mismatch && tag_at(input@, 0) is None,
        },
{
    let s = chars_of(input);
    proof {
        lemma_tag_at(s@, 0);
    }
    match tag_in(&s, 0) {
        Some((e, t)) => Ok((input.substring_char(e, s.len()), t)),
        None => Err(Error::Mismatch),
    }
}

/// Reads the literal text at the start of `input`, up to the first `{{`.
pub fn literal_text<'a>(input: &'a str) -> (r: Result<(&'a str, Option<Token>), Error>)
    ensures
        r matches Ok((rest, lit)) && match find_from(input@, tag_opener(), 0) {
            Some(k) => rest@ == input@.subrange(k, input@.len() as int)
                && token_opt(lit) == (if k > 0 { Some(SpecToken::Literal(input@.subrange(0, k))) } else { None }),
            None => rest@.len() == 0
                && token_opt(lit) == (if input@.len() > 0 { Some(SpecToken::Literal(input@)) } else { None }),
        },
{
    let s = chars_of(input);
    let opener = vec!['{', '{'];
    assert(opener@ =~= tag_opener());
    assert(s@.subrange(0, s@.len() as int) =~= input@);
    proof {
        lemma_find_from(s@, tag_opener(), 0);
    }
    match find_in(&s, &opener, 0) {
        Some(k) => {
            let lit = if k > 0 { Some(literal_token(&s, 0, k)) } else { None };
            Ok((input.substring_char(k, s.len()), lit))
        },
        None => {
            let lit = if s.len() > 0 { Some(literal_token(&s, 0, s.len())) } else { None };
            Ok((input.substring_char(s.len(), s.len()), lit))
        },
    }
}

/// Splits a whole template into tokens.
pub fn sequence(input: &str) -> (r: Result<Vec<Token>, Error>)
    ensures
        match r {
            Ok(v) => scan(input@) == Ok::<Seq<SpecToken>, int>(tokens_view(v@)),
            Err(Error::InvalidTag { position }) => scan(input@) == Err::<Seq<SpecToken>, int>(position as int),
            Err(Error::Mismatch) => false,
        },
{
    let s = chars_of(input);
    scan_chars(&s)
}

} // verus!
