//! Properties of the template language as a whole, stated over the same
//! spec functions as the contracts of the scanner, parser and renderer.

use vstd::prelude::*;
use crate::ast::SpecAst;
use crate::escape::escape;
use crate::parser::{
    add_item, leaf, lemma_parse_from_run, lemma_run_append, lemma_run_lifted, lifted, parse_from, parse_spec, run,
    SpecError, SpecFrame,
};
use crate::render::{render_each, render_node, render_spec, resolve_spec, scope_index, then_text, SpecRenderError};
use crate::scanner::{find_from, lemma_find_from, occurs_at, scan, scan_from, tag_opener};
use crate::token::{SectionType, SpecName, SpecToken};
use crate::value::{negative_items, truthiness, Value};

verus! {

/// `s` has no `{{` in it, so it holds no tag.
pub open spec fn tag_free(s: Seq<char>) -> bool {
    forall|k: int| 0 <= k && k + 1 < s.len() ==> !(#[trigger] s[k] == '{' && s[k + 1] == '{')
}

/// A template without tags renders to its own text, whatever the data.
pub proof fn lemma_literal_template(s: Seq<char>, root: Value, table: Seq<(Seq<char>, SpecAst)>)
    requires
        tag_free(s),
    ensures
        scan(s) matches Ok(toks) && parse_spec(toks) matches Ok(a) && render_spec(a, root, table) == Ok::<Seq<char>, SpecRenderError>(s),
{
    lemma_find_from(s, tag_opener(), 0);
    if s.len() > 0 {
        assert(find_from(s, tag_opener(), 0) is None) by {
            if find_from(s, tag_opener(), 0) is Some {
                let k = find_from(s, tag_opener(), 0)->0;
                assert(s.subrange(k, k + 2) == tag_opener());
                assert(s.subrange(k, k + 2)[0] == s[k]);
                assert(s.subrange(k, k + 2)[1] == s[k + 1]);
            }
        }
        assert(s.subrange(0, s.len() as int) =~= s);
        let toks = seq![SpecToken::Literal(s)];
        assert(scan_from(s, 0) == Ok::<Seq<SpecToken>, int>(toks));
        let next = add_item(Seq::empty(), Seq::empty(), leaf(toks[0]));
        let items = seq![SpecAst::Literal(s)];
        assert(next.0 =~= items);
        assert(parse_from(toks, 1, next.0, next.1) == Ok::<SpecAst, crate::parser::SpecError>(SpecAst::Sequence(items)));
        assert(parse_from(toks, 0, Seq::empty(), Seq::empty()) == parse_from(toks, 1, next.0, next.1));
        let stack = seq![root];
        let empty_chain = Seq::<Seq<char>>::empty();
        assert(items.subrange(1, 1) =~= Seq::<SpecAst>::empty());
        assert(render_node(items[0], stack, table, empty_chain) == Ok::<Seq<char>, SpecRenderError>(s));
        assert(crate::render::render_items(Seq::<SpecAst>::empty(), stack, table, empty_chain) == Ok::<Seq<char>, SpecRenderError>(Seq::empty()));
        assert(crate::render::render_items(items, stack, table, empty_chain) == then_text(s, crate::render::render_items(Seq::<SpecAst>::empty(), stack, table, empty_chain)));
        assert(s + Seq::<char>::empty() =~= s);
        assert(render_node(SpecAst::Sequence(items), stack, table, empty_chain) == crate::render::render_items(items, stack, table, empty_chain));
    } else {
        let stack = seq![root];
        let empty_chain = Seq::<Seq<char>>::empty();
        assert(s =~= Seq::<char>::empty());
        assert(scan_from(s, 0) == Ok::<Seq<SpecToken>, int>(Seq::empty()));
        assert(parse_from(Seq::empty(), 0, Seq::empty(), Seq::empty()) == Ok::<SpecAst, crate::parser::SpecError>(SpecAst::Sequence(Seq::empty())));
        assert(render_node(SpecAst::Sequence(Seq::empty()), stack, table, empty_chain) == crate::render::render_items(Seq::<SpecAst>::empty(), stack, table, empty_chain));
    }
}

/// `t` written `n` times.
pub open spec fn repeat(t: Seq<char>, n: nat) -> Seq<char>
    decreases n,
{
    if n == 0 {
        Seq::empty()
    } else {
        t + repeat(t, (n - 1) as nat)
    }
}

proof fn lemma_each_literal(t: Seq<char>, vals: Seq<Value>, stack: Seq<Value>, table: Seq<(Seq<char>, SpecAst)>, chain: Seq<Seq<char>>)
    ensures
        render_each(SpecAst::Literal(t), vals, stack, table, chain) == Ok::<Seq<char>, SpecRenderError>(repeat(t, vals.len())),
    decreases vals.len(),
{
    if vals.len() > 0 {
        let rest = vals.subrange(1, vals.len() as int);
        lemma_each_literal(t, rest, stack, table, chain);
        assert(render_node(SpecAst::Literal(t), stack.push(vals[0]), table, chain) == Ok::<Seq<char>, SpecRenderError>(t));
        assert(render_each(SpecAst::Literal(t), vals, stack, table, chain) == then_text(t, render_each(SpecAst::Literal(t), rest, stack, table, chain)));
    } else {
        assert(render_each(SpecAst::Literal(t), vals, stack, table, chain) == Ok::<Seq<char>, SpecRenderError>(Seq::empty()));
    }
}

/// An iteration over a list renders its body once per element: no output for
/// an empty list, `n` copies of a fixed body for `n` elements.
pub proof fn lemma_iteration_count(
    t: Seq<char>,
    n: SpecName,
    list: Vec<Value>,
    stack: Seq<Value>,
    table: Seq<(Seq<char>, SpecAst)>,
    chain: Seq<Seq<char>>,
)
    requires
        resolve_spec(stack, n) == Ok::<Value, SpecRenderError>(Value::List(list)),
    ensures
        render_node(SpecAst::Section(SectionType::Iteration, n, Box::new(SpecAst::Literal(t))), stack, table, chain)
            == Ok::<Seq<char>, SpecRenderError>(repeat(t, list@.len())),
{
    lemma_each_literal(t, list@, stack, table, chain);
}

/// Iteration keeps source order: the text for a last element comes after the
/// text for all the elements before it.
pub proof fn lemma_each_in_order(
    body: SpecAst,
    vals: Seq<Value>,
    v: Value,
    stack: Seq<Value>,
    table: Seq<(Seq<char>, SpecAst)>,
    chain: Seq<Seq<char>>,
)
    ensures
        render_each(body, vals.push(v), stack, table, chain) == match render_each(body, vals, stack, table, chain) {
            Err(e) => Err(e),
            Ok(x) => then_text(x, render_node(body, stack.push(v), table, chain)),
        },
    decreases vals.len(),
{
    let all = vals.push(v);
    assert(all[0] == (if vals.len() == 0 { v } else { vals[0] }));
    assert(render_each(body, all, stack, table, chain) == match render_node(body, stack.push(all[0]), table, chain) {
        Err(e) => Err(e),
        Ok(t) => then_text(t, render_each(body, all.subrange(1, all.len() as int), stack, table, chain)),
    });
    if vals.len() == 0 {
        assert(all.subrange(1, 1) =~= Seq::<Value>::empty());
        assert(render_each(body, vals, stack, table, chain) == Ok::<Seq<char>, SpecRenderError>(Seq::empty()));
        assert(render_each(body, Seq::<Value>::empty(), stack, table, chain) == Ok::<Seq<char>, SpecRenderError>(Seq::empty()));
        match render_node(body, stack.push(v), table, chain) {
            Ok(y) => {
                assert(y + Seq::<char>::empty() =~= y);
                assert(Seq::<char>::empty() + y =~= y);
            },
            Err(_) => {},
        }
    } else {
        let rest = vals.subrange(1, vals.len() as int);
        assert(all.subrange(1, all.len() as int) =~= rest.push(v));
        assert(all[0] == vals[0]);
        lemma_each_in_order(body, rest, v, stack, table, chain);
        assert(render_each(body, vals, stack, table, chain) == match render_node(body, stack.push(vals[0]), table, chain) {
            Err(e) => Err(e),
            Ok(t) => then_text(t, render_each(body, rest, stack, table, chain)),
        });
        match render_node(body, stack.push(vals[0]), table, chain) {
            Ok(x0) => {
                match render_each(body, rest, stack, table, chain) {
                    Ok(x1) => {
                        match render_node(body, stack.push(v), table, chain) {
                            Ok(y) => {
                                assert(x0 + (x1 + y) =~= (x0 + x1) + y);
                            },
                            Err(_) => {},
                        }
                    },
                    Err(_) => {},
                }
            },
            Err(_) => {},
        }
    }
}

proof fn lemma_each_single(body: SpecAst, v: Value, stack: Seq<Value>, table: Seq<(Seq<char>, SpecAst)>, chain: Seq<Seq<char>>)
    ensures
        render_each(body, seq![v], stack, table, chain) == render_node(body, stack.push(v), table, chain),
{
    assert(seq![v].subrange(1, 1) =~= Seq::<Value>::empty());
    assert(seq![v][0] == v);
    assert(render_each(body, Seq::<Value>::empty(), stack, table, chain) == Ok::<Seq<char>, SpecRenderError>(Seq::empty()));
    assert(render_each(body, seq![v], stack, table, chain) == match render_node(body, stack.push(v), table, chain) {
        Err(e) => Err(e),
        Ok(t) => then_text(t, render_each(body, Seq::<Value>::empty(), stack, table, chain)),
    });
    match render_node(body, stack.push(v), table, chain) {
        Ok(y) => {
            assert(y + Seq::<char>::empty() =~= y);
        },
        Err(_) => {},
    }
}

/// A negative iteration renders its body exactly once for an absent or error
/// value (with the unit value or the error as scope), and not at all for a
/// present or success value.
pub proof fn lemma_negative_iteration(
    n: SpecName,
    body: SpecAst,
    v: Value,
    stack: Seq<Value>,
    table: Seq<(Seq<char>, SpecAst)>,
    chain: Seq<Seq<char>>,
)
    requires
        resolve_spec(stack, n) == Ok::<Value, SpecRenderError>(v),
    ensures
        ({
            let r = render_node(SpecAst::Section(SectionType::NegativeIteration, n, Box::new(body)), stack, table, chain);
            match v {
                Value::Maybe(None) => r == render_node(body, stack.push(Value::Unit), table, chain),
                Value::Maybe(Some(_)) => r == Ok::<Seq<char>, SpecRenderError>(Seq::empty()),
                Value::Outcome(Err(e)) => r == render_node(body, stack.push(*e), table, chain),
                Value::Outcome(Ok(_)) => r == Ok::<Seq<char>, SpecRenderError>(Seq::empty()),
                _ => r == Err::<Seq<char>, SpecRenderError>(SpecRenderError::NotNegativeIterable),
            }
        }),
{
    let sec = SpecAst::Section(SectionType::NegativeIteration, n, Box::new(body));
    match v {
        Value::Maybe(None) => {
            assert(negative_items(v) == Some(seq![Value::Unit]));
            lemma_each_single(body, Value::Unit, stack, table, chain);
            assert(render_node(sec, stack, table, chain) == render_each(body, seq![Value::Unit], stack, table, chain));
        },
        Value::Maybe(Some(_)) => {
            assert(negative_items(v) == Some(Seq::<Value>::empty()));
            assert(render_node(sec, stack, table, chain) == render_each(body, Seq::<Value>::empty(), stack, table, chain));
        },
        Value::Outcome(Err(e)) => {
            assert(negative_items(v) == Some(seq![*e]));
            lemma_each_single(body, *e, stack, table, chain);
            assert(render_node(sec, stack, table, chain) == render_each(body, seq![*e], stack, table, chain));
        },
        Value::Outcome(Ok(_)) => {
            assert(negative_items(v) == Some(Seq::<Value>::empty()));
            assert(render_node(sec, stack, table, chain) == render_each(body, Seq::<Value>::empty(), stack, table, chain));
        },
        _ => {},
    }
}

/// A conditional section renders its body once, with the value as scope,
/// exactly when the value is truthy; a negative conditional exactly when it
/// is not.
pub proof fn lemma_conditional(
    n: SpecName,
    body: SpecAst,
    v: Value,
    b: bool,
    stack: Seq<Value>,
    table: Seq<(Seq<char>, SpecAst)>,
    chain: Seq<Seq<char>>,
)
    requires
        resolve_spec(stack, n) == Ok::<Value, SpecRenderError>(v),
        truthiness(v) == Some(b),
    ensures
        render_node(SpecAst::Section(SectionType::Conditional, n, Box::new(body)), stack, table, chain)
            == if b { render_node(body, stack.push(v), table, chain) } else { Ok(Seq::empty()) },
        render_node(SpecAst::Section(SectionType::NegativeConditional, n, Box::new(body)), stack, table, chain)
            == if !b { render_node(body, stack.push(v), table, chain) } else { Ok(Seq::empty()) },
{
    lemma_each_single(body, v, stack, table, chain);
    let pos = SpecAst::Section(SectionType::Conditional, n, Box::new(body));
    let neg = SpecAst::Section(SectionType::NegativeConditional, n, Box::new(body));
    let once = seq![v];
    let none = Seq::<Value>::empty();
    assert(render_each(body, none, stack, table, chain) == Ok::<Seq<char>, SpecRenderError>(Seq::empty()));
    if b {
        assert(render_node(pos, stack, table, chain) == render_each(body, once, stack, table, chain));
        assert(render_node(neg, stack, table, chain) == render_each(body, none, stack, table, chain));
    } else {
        assert(render_node(pos, stack, table, chain) == render_each(body, none, stack, table, chain));
        assert(render_node(neg, stack, table, chain) == render_each(body, once, stack, table, chain));
    }
}

/// Escaped interpolation of a text writes its escaped form; unescaped
/// interpolation writes it exactly.
pub proof fn lemma_interpolation_text(
    n: SpecName,
    t: String,
    stack: Seq<Value>,
    table: Seq<(Seq<char>, SpecAst)>,
    chain: Seq<Seq<char>>,
)
    requires
        resolve_spec(stack, n) == Ok::<Value, SpecRenderError>(Value::Text(t)),
    ensures
        render_node(SpecAst::Interpolation(n), stack, table, chain) == Ok::<Seq<char>, SpecRenderError>(escape(t@)),
        render_node(SpecAst::UnescapedInterpolation(n), stack, table, chain) == Ok::<Seq<char>, SpecRenderError>(t@),
{
}

/// A name that climbs more levels than the stack has fails to resolve, so
/// nothing that uses it renders.
pub proof fn lemma_too_many_dots(n: SpecName, stack: Seq<Value>)
    requires
        n.leading_dots > stack.len(),
    ensures
        resolve_spec(stack, n) == Err::<Value, SpecRenderError>(SpecRenderError::TooManyLeadingDots {
            leading_dots: n.leading_dots,
            depth: stack.len(),
        }),
{
}

/// Section closers must name their opener exactly: an opener for `x`, then
/// any complete sequence of tokens, then a closer for a different name `y`
/// does not parse, and the error names that closer.
pub proof fn lemma_closer_must_match(kind: SectionType, x: SpecName, mid: Seq<SpecToken>, y: SpecName)
    requires
        x != y,
        parse_spec(mid) is Ok,
    ensures
        parse_spec(seq![SpecToken::SectionOpener(kind, x)] + mid + seq![SpecToken::SectionCloser(y)])
            == Err::<SpecAst, SpecError>(SpecError::Mismatch {
                expected: "section closer"@,
                found: Some(SpecToken::SectionCloser(y)),
            }),
{
    let opener = seq![SpecToken::SectionOpener(kind, x)];
    let closer = seq![SpecToken::SectionCloser(y)];
    let all = opener + mid + closer;
    let empty_top = Seq::<SpecAst>::empty();
    let none_open = Seq::<SpecFrame>::empty();
    let f0 = SpecFrame { kind, name: x, items: Seq::empty() };

    lemma_parse_from_run(all, 0, empty_top, none_open);
    assert(all.subrange(0, all.len() as int) =~= all);
    assert(all =~= opener + (mid + closer));
    lemma_run_append(opener, mid + closer, empty_top, none_open);
    assert(opener.drop_first() =~= Seq::<SpecToken>::empty());
    assert(none_open.push(f0) =~= seq![f0]);
    assert(crate::parser::step(opener[0], empty_top, none_open) == Ok::<(Seq<SpecAst>, Seq<SpecFrame>), SpecError>((empty_top, seq![f0])));
    assert(run(Seq::<SpecToken>::empty(), empty_top, seq![f0]) == Ok::<(Seq<SpecAst>, Seq<SpecFrame>), SpecError>((empty_top, seq![f0])));
    assert(run(opener, empty_top, none_open) == Ok::<(Seq<SpecAst>, Seq<SpecFrame>), SpecError>((empty_top, seq![f0])));
    lemma_run_append(mid, closer, empty_top, seq![f0]);

    lemma_parse_from_run(mid, 0, empty_top, none_open);
    assert(mid.subrange(0, mid.len() as int) =~= mid);
    let end = run(mid, empty_top, none_open)->Ok_0;
    assert(end.1.len() == 0);
    lemma_run_lifted(mid, none_open, f0, empty_top, none_open);
    let l0 = lifted(none_open, f0, empty_top, none_open);
    assert(f0.items + empty_top =~= f0.items);
    assert(l0.1 =~= seq![f0]);
    assert(l0.0 == empty_top);
    let l1 = lifted(none_open, f0, end.0, end.1);
    let g = SpecFrame { kind, name: x, items: f0.items + end.0 };
    assert(l1.1 =~= seq![g]);
    assert(run(mid, empty_top, seq![f0]) == Ok::<(Seq<SpecAst>, Seq<SpecFrame>), SpecError>((empty_top, seq![g])));
    assert(seq![g].last().name != y);
}

} // verus!
