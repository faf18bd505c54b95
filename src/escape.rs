//! HTML escaping of interpolated text.

use vstd::prelude::*;
use crate::text::{chars_of, push_char};
use crate::value::{decimal, push_decimal};

verus! {

/// What one character becomes in escaped output.
pub open spec fn escape_char(c: char) -> Seq<char> {
    if c == '<' {
        "&lt;"@
    } else if c == '&' {
        "&amp;"@
    } else if c == '"' {
        "&quot;"@
    } else if c == '\'' {
        "&apos;"@
    } else {
        seq![c]
    }
}

/// The escaped form of `s`: each character replaced by its escape, in order.
pub open spec fn escape(s: Seq<char>) -> Seq<char>
    decreases s.len(),
{
    if s.len() == 0 {
        Seq::empty()
    } else {
        escape_char(s[0]) + escape(s.drop_first())
    }
}

pub open spec fn starts_with(t: Seq<char>, p: Seq<char>) -> bool {
    p.len() <= t.len() && t.subrange(0, p.len() as int) == p
}

/// Reads escaped text back: each entity becomes its character again.
pub open spec fn unescape(t: Seq<char>) -> Seq<char>
    decreases t.len(),
{
    if t.len() == 0 {
        Seq::empty()
    } else if starts_with(t, "&lt;"@) && t.len() >= 4 {
        seq!['<'] + unescape(t.subrange(4, t.len() as int))
    } else if starts_with(t, "&amp;"@) && t.len() >= 5 {
        seq!['&'] + unescape(t.subrange(5, t.len() as int))
    } else if starts_with(t, "&quot;"@) && t.len() >= 6 {
        seq!['"'] + unescape(t.subrange(6, t.len() as int))
    } else if starts_with(t, "&apos;"@) && t.len() >= 6 {
        seq!['\''] + unescape(t.subrange(6, t.len() as int))
    } else {
        seq![t[0]] + unescape(t.drop_first())
    }
}

pub proof fn lemma_escape_push(s: Seq<char>, c: char)
    ensures
        escape(s.push(c)) == escape(s) + escape_char(c),
    decreases s.len(),
{
    if s.len() == 0 {
        assert(s.push(c).drop_first() =~= Seq::<char>::empty());
        assert(s.push(c)[0] == c);
        assert(escape(s.push(c).drop_first()) == Seq::<char>::empty());
        assert(escape(s) == Seq::<char>::empty());
        assert(escape(s.push(c)) =~= escape(s) + escape_char(c));
    } else {
        assert(s.push(c).drop_first() =~= s.drop_first().push(c));
        lemma_escape_push(s.drop_first(), c);
        assert(escape(s.push(c)) =~= escape_char(s[0]) + (escape(s.drop_first()) + escape_char(c)));
    }
}

pub proof fn lemma_escape_append(s: Seq<char>, t: Seq<char>)
    ensures
        escape(s + t) == escape(s) + escape(t),
    decreases s.len(),
{
    if s.len() == 0 {
        assert(s + t =~= t);
        assert(escape(s) + escape(t) =~= escape(t));
    } else {
        assert((s + t).drop_first() =~= s.drop_first() + t);
        lemma_escape_append(s.drop_first(), t);
        assert(escape(s + t) =~= escape_char(s[0]) + (escape(s.drop_first()) + escape(t)));
    }
}

proof fn lemma_not_prefix(t: Seq<char>, p: Seq<char>, k: int)
    requires
        0 <= k < p.len(),
        k < t.len(),
        t[k] != p[k],
    ensures
        !starts_with(t, p),
{
    if starts_with(t, p) {
        assert(t.subrange(0, p.len() as int)[k] == t[k]);
    }
}

/// Escaping loses nothing and never escapes twice: reading the escaped text
/// back gives the unescaped text again, entity for character.
pub proof fn lemma_unescape_escape(s: Seq<char>)
    ensures
        unescape(escape(s)) == s,
    decreases s.len(),
{
    reveal_strlit("&lt;");
    reveal_strlit("&amp;");
    reveal_strlit("&quot;");
    reveal_strlit("&apos;");
    if s.len() > 0 {
        let c = s[0];
        let rest = s.drop_first();
        let t = escape(s);
        let e = escape_char(c);
        lemma_unescape_escape(rest);
        assert(t == e + escape(rest));
        assert(t.subrange(e.len() as int, t.len() as int) =~= escape(rest));
        let lt = "&lt;"@;
        let amp = "&amp;"@;
        let quot = "&quot;"@;
        let apos = "&apos;"@;
        if c == '<' || c == '&' || c == '"' || c == '\'' {
            assert(t.subrange(0, e.len() as int) =~= e);
            assert forall|k: int| 0 <= k < e.len() implies t[k] == e[k] by {
                assert(t.subrange(0, e.len() as int)[k] == t[k]);
            }
            if c == '&' {
                lemma_not_prefix(t, lt, 1);
            } else if c == '"' {
                lemma_not_prefix(t, lt, 1);
                lemma_not_prefix(t, amp, 1);
            } else if c == '\'' {
                lemma_not_prefix(t, lt, 1);
                lemma_not_prefix(t, amp, 2);
                lemma_not_prefix(t, quot, 1);
            }
        } else {
            assert(t[0] == c);
            assert(t.drop_first() =~= escape(rest));
            lemma_not_prefix(t, lt, 0);
            lemma_not_prefix(t, amp, 0);
            lemma_not_prefix(t, quot, 0);
            lemma_not_prefix(t, apos, 0);
        }
        assert(unescape(t) =~= s);
    }
}

/// Writes `text` with `<`, `&`, `"` and `'` replaced by their HTML entities.
pub fn write_escaped(out: &mut String, text: &str)
    ensures
        final(out)@ == old(out)@ + escape(text@),
{
    let s = chars_of(text);
    let mut i: usize = 0;
    while i < s.len()
        invariant
            0 <= i <= s@.len(),
            s@ == text@,
            out@ == old(out)@ + escape(s@.subrange(0, i as int)),
        decreases s.len() - i,
    {
        let c = s[i];
        let ghost before = out@;
        if c == '<' {
            out.append("&lt;");
        } else if c == '&' {
            out.append("&amp;");
        } else if c == '"' {
            out.append("&quot;");
        } else if c == '\'' {
            out.append("&apos;");
        } else {
            push_char(out, c);
        }
        proof {
            assert(s@.subrange(0, i + 1) =~= s@.subrange(0, i as int).push(c));
            lemma_escape_push(s@.subrange(0, i as int), c);
            assert(out@ =~= before + escape_char(c));
        }
        i += 1;
    }
    assert(s@.subrange(0, s@.len() as int) =~= text@);
}

/// A value whose text interpolation writes with HTML escaping.
pub trait DisplayHtmlSafe {
    spec fn html_text(&self) -> Seq<char>;

    /// Appends the text of `self` with `<`, `&`, `"` and `'` escaped.
    fn safe_fmt(&self, out: &mut String)
        ensures
            final(out)@ == old(out)@ + escape(self.html_text()),
    ;
}

impl DisplayHtmlSafe for str {
    open spec fn html_text(&self) -> Seq<char> {
        self@
    }

    fn safe_fmt(&self, out: &mut String) {
        write_escaped(out, self)
    }
}

impl DisplayHtmlSafe for String {
    open spec fn html_text(&self) -> Seq<char> {
        self@
    }

    fn safe_fmt(&self, out: &mut String) {
        write_escaped(out, self.as_str())
    }
}

impl DisplayHtmlSafe for bool {
    open spec fn html_text(&self) -> Seq<char> {
        if *self { "true"@ } else { "false"@ }
    }

    fn safe_fmt(&self, out: &mut String) {
        if *self {
            write_escaped(out, "true")
        } else {
            write_escaped(out, "false")
        }
    }
}

impl DisplayHtmlSafe for i64 {
    open spec fn html_text(&self) -> Seq<char> {
        decimal(*self as int)
    }

    fn safe_fmt(&self, out: &mut String) {
        let mut text = String::new();
        push_decimal(&mut text, *self);
        assert(text@ =~= decimal(*self as int));
        write_escaped(out, text.as_str())
    }
}

} // verus!
