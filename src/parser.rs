//! Builds the tree from a token sequence, matching each section closer with
//! its opener by exact name equality.

use vstd::prelude::*;
use crate::ast::{asts_view, lemma_asts_view, section_node, sequence_node, Ast, SpecAst};
use crate::scanner::{token_opt, tokens_view};
use crate::token::{SectionType, SpecName, SpecToken, Token};

verus! {

#[derive(Debug)]
pub enum Error {
    /// The parser expected `expected` and found `found` (`None`: end of input).
    Mismatch { expected: &'static str, found: Option<Token> },
}

pub ghost enum SpecError {
    Mismatch { expected: Seq<char>, found: Option<SpecToken> },
}

impl View for Error {
    type V = SpecError;

    open spec fn view(&self) -> SpecError {
        match self {
            Error::Mismatch { expected, found } => SpecError::Mismatch {
                expected: expected@,
                found: token_opt(*found),
            },
        }
    }
}

/// A section whose closer has not been read yet.
pub ghost struct SpecFrame {
    pub kind: SectionType,
    pub name: SpecName,
    pub items: Seq<SpecAst>,
}

/// Appends `item` to the innermost open section, or to the top level.
pub open spec fn add_item(top: Seq<SpecAst>, open: Seq<SpecFrame>, item: SpecAst) -> (Seq<SpecAst>, Seq<SpecFrame>) {
    if open.len() == 0 {
        (top.push(item), open)
    } else {
        let f = open.last();
        (top, open.drop_last().push(SpecFrame { kind: f.kind, name: f.name, items: f.items.push(item) }))
    }
}

/// The node for a section once its closer is read.
pub open spec fn close_frame(f: SpecFrame) -> SpecAst {
    SpecAst::Section(f.kind, f.name, Box::new(SpecAst::Sequence(f.items)))
}

/// The node for a token that stands alone.
pub open spec fn leaf(t: SpecToken) -> SpecAst {
    match t {
        SpecToken::Literal(x) => SpecAst::Literal(x),
        SpecToken::Interpolation(n) => SpecAst::Interpolation(n),
        SpecToken::UnescapedInterpolation(n) => SpecAst::UnescapedInterpolation(n),
        SpecToken::PartialInclude(p, n) => SpecAst::PartialInclude(p, n),
        _ => SpecAst::Sequence(Seq::empty()),
    }
}

/// Parses `toks[i..]` given the top-level items and the open sections so far.
pub open spec fn parse_from(toks: Seq<SpecToken>, i: int, top: Seq<SpecAst>, open: Seq<SpecFrame>) -> Result<SpecAst, SpecError>
    decreases toks.len() - i,
{
    if i < 0 || i >= toks.len() {
        if open.len() == 0 {
            Ok(SpecAst::Sequence(top))
        } else {
            Err(SpecError::Mismatch { expected: "section closer"@, found: None })
        }
    } else {
        match toks[i] {
            SpecToken::SectionOpener(k, n) => parse_from(
                toks,
                i + 1,
                top,
                open.push(SpecFrame { kind: k, name: n, items: Seq::empty() }),
            ),
            SpecToken::SectionCloser(n) => if open.len() == 0 {
                Err(SpecError::Mismatch { expected: "EOF"@, found: Some(toks[i]) })
            } else if open.last().name != n {
                Err(SpecError::Mismatch { expected: "section closer"@, found: Some(toks[i]) })
            } else {
                let next = add_item(top, open.drop_last(), close_frame(open.last()));
                parse_from(toks, i + 1, next.0, next.1)
            },
            _ => {
                let next = add_item(top, open, leaf(toks[i]));
                parse_from(toks, i + 1, next.0, next.1)
            },
        }
    }
}

/// The tree that a whole token sequence parses to.
pub open spec fn parse_spec(toks: Seq<SpecToken>) -> Result<SpecAst, SpecError> {
    parse_from(toks, 0, Seq::empty(), Seq::empty())
}

/// The parser state after one token, or the error that token causes.
pub open spec fn step(tok: SpecToken, top: Seq<SpecAst>, open: Seq<SpecFrame>) -> Result<(Seq<SpecAst>, Seq<SpecFrame>), SpecError> {
    match tok {
        SpecToken::SectionOpener(k, n) => Ok((top, open.push(SpecFrame { kind: k, name: n, items: Seq::empty() }))),
        SpecToken::SectionCloser(n) => if open.len() == 0 {
            Err(SpecError::Mismatch { expected: "EOF"@, found: Some(tok) })
        } else if open.last().name != n {
            Err(SpecError::Mismatch { expected: "section closer"@, found: Some(tok) })
        } else {
            Ok(add_item(top, open.drop_last(), close_frame(open.last())))
        },
        _ => Ok(add_item(top, open, leaf(tok))),
    }
}

/// The parser state after a run of tokens.
pub open spec fn run(toks: Seq<SpecToken>, top: Seq<SpecAst>, open: Seq<SpecFrame>) -> Result<(Seq<SpecAst>, Seq<SpecFrame>), SpecError>
    decreases toks.len(),
{
    if toks.len() == 0 {
        Ok((top, open))
    } else {
        match step(toks[0], top, open) {
            Err(e) => Err(e),
            Ok(next) => run(toks.drop_first(), next.0, next.1),
        }
    }
}

/// The result at the end of input: every section must be closed.
pub open spec fn finish(r: Result<(Seq<SpecAst>, Seq<SpecFrame>), SpecError>) -> Result<SpecAst, SpecError> {
    match r {
        Err(e) => Err(e),
        Ok(state) => if state.1.len() == 0 {
            Ok(SpecAst::Sequence(state.0))
        } else {
            Err(SpecError::Mismatch { expected: "section closer"@, found: None })
        },
    }
}

pub proof fn lemma_parse_from_run(toks: Seq<SpecToken>, i: int, top: Seq<SpecAst>, open: Seq<SpecFrame>)
    requires
        0 <= i <= toks.len(),
    ensures
        parse_from(toks, i, top, open) == finish(run(toks.subrange(i, toks.len() as int), top, open)),
    decreases toks.len() - i,
{
    let rest = toks.subrange(i, toks.len() as int);
    if i < toks.len() {
        assert(rest[0] == toks[i]);
        assert(rest.drop_first() =~= toks.subrange(i + 1, toks.len() as int));
        match step(toks[i], top, open) {
            Ok(next) => {
                lemma_parse_from_run(toks, i + 1, next.0, next.1);
            },
            Err(_) => {},
        }
    }
}

pub proof fn lemma_run_append(a: Seq<SpecToken>, b: Seq<SpecToken>, top: Seq<SpecAst>, open: Seq<SpecFrame>)
    ensures
        run(a + b, top, open) == match run(a, top, open) {
            Err(e) => Err(e),
            Ok(state) => run(b, state.0, state.1),
        },
    decreases a.len(),
{
    if a.len() == 0 {
        assert(a + b =~= b);
    } else {
        assert((a + b)[0] == a[0]);
        assert((a + b).drop_first() =~= a.drop_first() + b);
        match step(a[0], top, open) {
            Ok(next) => {
                lemma_run_append(a.drop_first(), b, next.0, next.1);
            },
            Err(_) => {},
        }
    }
}

/// The state `(top, open)` seen from inside an enclosing section `f`, below
/// outer sections `outer` and above items `t` already in `f`.
pub open spec fn lifted(outer: Seq<SpecFrame>, f: SpecFrame, t: Seq<SpecAst>, open: Seq<SpecFrame>) -> (Seq<SpecAst>, Seq<SpecFrame>) {
    (Seq::empty(), outer.push(SpecFrame { kind: f.kind, name: f.name, items: f.items + t }) + open)
}

proof fn lemma_step_lifted(tok: SpecToken, outer: Seq<SpecFrame>, f: SpecFrame, t: Seq<SpecAst>, open: Seq<SpecFrame>)
    requires
        step(tok, t, open) is Ok,
    ensures
        ({
            let next = step(tok, t, open)->Ok_0;
            let l = lifted(outer, f, t, open);
            step(tok, l.0, l.1) == Ok::<(Seq<SpecAst>, Seq<SpecFrame>), SpecError>(lifted(outer, f, next.0, next.1))
        }),
{
    let l = lifted(outer, f, t, open);
    let base = outer.push(SpecFrame { kind: f.kind, name: f.name, items: f.items + t });
    match tok {
        SpecToken::SectionOpener(k, n) => {
            let g = SpecFrame { kind: k, name: n, items: Seq::empty() };
            assert(l.1.push(g) =~= base + open.push(g));
        },
        SpecToken::SectionCloser(n) => {
            assert(l.1.last() == open.last());
            assert(l.1.drop_last() =~= base + open.drop_last());
            lemma_add_lifted(outer, f, t, open.drop_last(), close_frame(open.last()));
        },
        _ => {
            lemma_add_lifted(outer, f, t, open, leaf(tok));
        },
    }
}

proof fn lemma_add_lifted(outer: Seq<SpecFrame>, f: SpecFrame, t: Seq<SpecAst>, open: Seq<SpecFrame>, item: SpecAst)
    ensures
        ({
            let l = lifted(outer, f, t, open);
            let next = add_item(t, open, item);
            add_item(l.0, l.1, item) == lifted(outer, f, next.0, next.1)
        }),
{
    let l = lifted(outer, f, t, open);
    let base = outer.push(SpecFrame { kind: f.kind, name: f.name, items: f.items + t });
    if open.len() == 0 {
        let g = SpecFrame { kind: f.kind, name: f.name, items: f.items + t.push(item) };
        assert(l.1 =~= base);
        assert(f.items + t.push(item) =~= (f.items + t).push(item));
        assert(add_item(l.0, l.1, item).1 =~= outer.push(g) + open);
    } else {
        let last = open.last();
        let g = SpecFrame { kind: last.kind, name: last.name, items: last.items.push(item) };
        assert(l.1.last() == last);
        assert(l.1.drop_last().push(g) =~= base + open.drop_last().push(g));
    }
}

/// A run that succeeds on its own succeeds the same way inside an open section.
pub proof fn lemma_run_lifted(toks: Seq<SpecToken>, outer: Seq<SpecFrame>, f: SpecFrame, t: Seq<SpecAst>, open: Seq<SpecFrame>)
    requires
        run(toks, t, open) is Ok,
    ensures
        ({
            let end = run(toks, t, open)->Ok_0;
            let l = lifted(outer, f, t, open);
            run(toks, l.0, l.1) == Ok::<(Seq<SpecAst>, Seq<SpecFrame>), SpecError>(lifted(outer, f, end.0, end.1))
        }),
    decreases toks.len(),
{
    if toks.len() > 0 {
        lemma_step_lifted(toks[0], outer, f, t, open);
        let next = step(toks[0], t, open)->Ok_0;
        lemma_run_lifted(toks.drop_first(), outer, f, next.0, next.1);
    }
}

/// The tokens that spell a tree.
pub open spec fn tokens_of(a: SpecAst) -> Seq<SpecToken>
    decreases a, 1nat,
{
    match a {
        SpecAst::Sequence(items) => tokens_of_all(items),
        SpecAst::Literal(t) => seq![SpecToken::Literal(t)],
        SpecAst::Interpolation(n) => seq![SpecToken::Interpolation(n)],
        SpecAst::UnescapedInterpolation(n) => seq![SpecToken::UnescapedInterpolation(n)],
        SpecAst::Section(k, n, body) => seq![SpecToken::SectionOpener(k, n)] + tokens_of(*body) + seq![SpecToken::SectionCloser(n)],
        SpecAst::PartialInclude(p, n) => seq![SpecToken::PartialInclude(p, n)],
    }
}

pub open spec fn tokens_of_all(items: Seq<SpecAst>) -> Seq<SpecToken>
    decreases items, 0nat,
{
    if items.len() == 0 {
        Seq::empty()
    } else {
        tokens_of_all(items.subrange(0, items.len() - 1)) + tokens_of(items[items.len() - 1])
    }
}

/// A tree item the parser can build: section bodies are sequences, and no
/// sequence stands directly inside another.
pub open spec fn well_formed(a: SpecAst) -> bool
    decreases a, 1nat,
{
    match a {
        SpecAst::Sequence(_) => false,
        SpecAst::Section(_, _, body) => match *body {
            SpecAst::Sequence(items) => all_well_formed(items),
            _ => false,
        },
        _ => true,
    }
}

pub open spec fn all_well_formed(items: Seq<SpecAst>) -> bool
    decreases items, 0nat,
{
    if items.len() == 0 {
        true
    } else {
        all_well_formed(items.subrange(0, items.len() - 1)) && well_formed(items[items.len() - 1])
    }
}

/// Appends `items`, in order, to the innermost open section or the top level.
pub open spec fn add_all(top: Seq<SpecAst>, open: Seq<SpecFrame>, items: Seq<SpecAst>) -> (Seq<SpecAst>, Seq<SpecFrame>)
    decreases items.len(),
{
    if items.len() == 0 {
        (top, open)
    } else {
        let before = add_all(top, open, items.subrange(0, items.len() - 1));
        add_item(before.0, before.1, items[items.len() - 1])
    }
}

proof fn lemma_add_all_open(top: Seq<SpecAst>, open: Seq<SpecFrame>, f: SpecFrame, items: Seq<SpecAst>)
    ensures
        add_all(top, open.push(f), items) == (top, open.push(SpecFrame { kind: f.kind, name: f.name, items: f.items + items })),
    decreases items.len(),
{
    if items.len() == 0 {
        assert(f.items + items =~= f.items);
    } else {
        let init = items.subrange(0, items.len() - 1);
        lemma_add_all_open(top, open, f, init);
        let g = SpecFrame { kind: f.kind, name: f.name, items: f.items + init };
        assert(open.push(g).drop_last() =~= open);
        assert((f.items + init).push(items[items.len() - 1]) =~= f.items + items);
    }
}

proof fn lemma_add_all_top(items: Seq<SpecAst>)
    ensures
        add_all(Seq::empty(), Seq::empty(), items) == (items, Seq::<SpecFrame>::empty()),
    decreases items.len(),
{
    if items.len() > 0 {
        let init = items.subrange(0, items.len() - 1);
        lemma_add_all_top(init);
        assert(init.push(items[items.len() - 1]) =~= items);
    }
}

proof fn lemma_run_tokens_of(a: SpecAst, top: Seq<SpecAst>, open: Seq<SpecFrame>)
    requires
        well_formed(a),
    ensures
        run(tokens_of(a), top, open) == Ok::<(Seq<SpecAst>, Seq<SpecFrame>), SpecError>(add_item(top, open, a)),
    decreases a, 1nat,
{
    match a {
        SpecAst::Section(k, n, body) => {
            let items = body->Sequence_0;
            let f = SpecFrame { kind: k, name: n, items: Seq::empty() };
            let opener = seq![SpecToken::SectionOpener(k, n)];
            let closer = seq![SpecToken::SectionCloser(n)];
            assert(tokens_of(*body) == tokens_of_all(items));
            lemma_run_append(opener, tokens_of_all(items) + closer, top, open);
            assert(opener + tokens_of_all(items) + closer =~= opener + (tokens_of_all(items) + closer));
            assert(opener.drop_first() =~= Seq::<SpecToken>::empty());
            assert(run(Seq::<SpecToken>::empty(), top, open.push(f)) == Ok::<(Seq<SpecAst>, Seq<SpecFrame>), SpecError>((top, open.push(f))));
            assert(run(opener, top, open) == Ok::<(Seq<SpecAst>, Seq<SpecFrame>), SpecError>((top, open.push(f))));
            lemma_run_append(tokens_of_all(items), closer, top, open.push(f));
            assert(decreases_to!(a => a->Section_2));
            lemma_run_tokens_of_all(items, top, open.push(f));
            lemma_add_all_open(top, open, f, items);
            let g = SpecFrame { kind: k, name: n, items: f.items + items };
            assert(f.items + items =~= items);
            assert(open.push(g).drop_last() =~= open);
            assert(closer.drop_first() =~= Seq::<SpecToken>::empty());
            assert(close_frame(g) == a);
            assert(run(tokens_of_all(items), top, open.push(f)) == Ok::<(Seq<SpecAst>, Seq<SpecFrame>), SpecError>((top, open.push(g))));
            assert(open.push(g).last() == g);
            assert(step(closer[0], top, open.push(g)) == Ok::<(Seq<SpecAst>, Seq<SpecFrame>), SpecError>(add_item(top, open, a)));
            let done = add_item(top, open, a);
            assert(run(Seq::<SpecToken>::empty(), done.0, done.1) == Ok::<(Seq<SpecAst>, Seq<SpecFrame>), SpecError>(done));
            assert(run(closer, top, open.push(g)) == Ok::<(Seq<SpecAst>, Seq<SpecFrame>), SpecError>(done));
            assert(run(tokens_of_all(items) + closer, top, open.push(f)) == Ok::<(Seq<SpecAst>, Seq<SpecFrame>), SpecError>(done));
            assert(tokens_of(a) == opener + tokens_of_all(items) + closer);
            assert(run(opener + (tokens_of_all(items) + closer), top, open) == Ok::<(Seq<SpecAst>, Seq<SpecFrame>), SpecError>(done));
            assert(tokens_of(a) == opener + (tokens_of_all(items) + closer));
            assert(run(tokens_of(a), top, open) == Ok::<(Seq<SpecAst>, Seq<SpecFrame>), SpecError>(done));
            assert(run(tokens_of(a), top, open) == Ok::<(Seq<SpecAst>, Seq<SpecFrame>), SpecError>(add_item(top, open, a)));
        },
        _ => {
            let tok = tokens_of(a)[0];
            assert(tokens_of(a).len() == 1);
            assert(tokens_of(a).drop_first() =~= Seq::<SpecToken>::empty());
            assert(leaf(tok) == a);
            assert(step(tok, top, open) == Ok::<(Seq<SpecAst>, Seq<SpecFrame>), SpecError>(add_item(top, open, a)));
            let done = add_item(top, open, a);
            assert(run(Seq::<SpecToken>::empty(), done.0, done.1) == Ok::<(Seq<SpecAst>, Seq<SpecFrame>), SpecError>(done));
        },
    }
}

proof fn lemma_run_tokens_of_all(items: Seq<SpecAst>, top: Seq<SpecAst>, open: Seq<SpecFrame>)
    requires
        all_well_formed(items),
    ensures
        run(tokens_of_all(items), top, open) == Ok::<(Seq<SpecAst>, Seq<SpecFrame>), SpecError>(add_all(top, open, items)),
    decreases items, 0nat,
{
    if items.len() > 0 {
        let init = items.subrange(0, items.len() - 1);
        let last = items[items.len() - 1];
        lemma_run_tokens_of_all(init, top, open);
        lemma_run_append(tokens_of_all(init), tokens_of(last), top, open);
        let mid = add_all(top, open, init);
        lemma_run_tokens_of(last, mid.0, mid.1);
    }
}

/// Parsing the tokens of a well-formed tree gives that tree back.
pub proof fn lemma_parse_tokens_of(items: Seq<SpecAst>)
    requires
        all_well_formed(items),
    ensures
        parse_spec(tokens_of_all(items)) == Ok::<SpecAst, SpecError>(SpecAst::Sequence(items)),
{
    let toks = tokens_of_all(items);
    lemma_parse_from_run(toks, 0, Seq::empty(), Seq::empty());
    assert(toks.subrange(0, toks.len() as int) =~= toks);
    lemma_run_tokens_of_all(items, Seq::empty(), Seq::empty());
    lemma_add_all_top(items);
}

/// The tokens read so far that an open section stands for.
pub open spec fn frame_tokens(f: SpecFrame) -> Seq<SpecToken> {
    seq![SpecToken::SectionOpener(f.kind, f.name)] + tokens_of_all(f.items)
}

pub open spec fn frames_tokens(open: Seq<SpecFrame>) -> Seq<SpecToken>
    decreases open.len(),
{
    if open.len() == 0 {
        Seq::empty()
    } else {
        frames_tokens(open.drop_last()) + frame_tokens(open.last())
    }
}

/// The tokens that a parser state has consumed.
pub open spec fn state_tokens(top: Seq<SpecAst>, open: Seq<SpecFrame>) -> Seq<SpecToken> {
    tokens_of_all(top) + frames_tokens(open)
}

pub open spec fn state_well_formed(top: Seq<SpecAst>, open: Seq<SpecFrame>) -> bool {
    &&& all_well_formed(top)
    &&& forall|i: int| 0 <= i < open.len() ==> all_well_formed(#[trigger] open[i].items)
}

proof fn lemma_push_item(items: Seq<SpecAst>, x: SpecAst)
    ensures
        tokens_of_all(items.push(x)) == tokens_of_all(items) + tokens_of(x),
        all_well_formed(items.push(x)) == (all_well_formed(items) && well_formed(x)),
{
    assert(items.push(x).subrange(0, items.len() as int) =~= items);
}

proof fn lemma_add_item_tokens(top: Seq<SpecAst>, open: Seq<SpecFrame>, x: SpecAst)
    requires
        state_well_formed(top, open),
        well_formed(x),
    ensures
        ({
            let next = add_item(top, open, x);
            state_tokens(next.0, next.1) == state_tokens(top, open) + tokens_of(x)
                && state_well_formed(next.0, next.1)
        }),
{
    let next = add_item(top, open, x);
    if open.len() == 0 {
        lemma_push_item(top, x);
        assert(state_tokens(next.0, next.1) =~= state_tokens(top, open) + tokens_of(x));
    } else {
        let f = open.last();
        let g = SpecFrame { kind: f.kind, name: f.name, items: f.items.push(x) };
        lemma_push_item(f.items, x);
        assert(all_well_formed(open[open.len() - 1].items));
        assert(next.1.drop_last() =~= open.drop_last());
        assert(frame_tokens(g) =~= frame_tokens(f) + tokens_of(x));
        assert(state_tokens(next.0, next.1) =~= state_tokens(top, open) + tokens_of(x));
        assert forall|i: int| 0 <= i < next.1.len() implies all_well_formed(#[trigger] next.1[i].items) by {
            if i < next.1.len() - 1 {
                assert(next.1[i] == open[i]);
            }
        }
    }
}

proof fn lemma_step_tokens(tok: SpecToken, top: Seq<SpecAst>, open: Seq<SpecFrame>)
    requires
        state_well_formed(top, open),
        step(tok, top, open) is Ok,
    ensures
        ({
            let next = step(tok, top, open)->Ok_0;
            state_tokens(next.0, next.1) == state_tokens(top, open).push(tok) && state_well_formed(next.0, next.1)
        }),
{
    let next = step(tok, top, open)->Ok_0;
    match tok {
        SpecToken::SectionOpener(k, n) => {
            let f = SpecFrame { kind: k, name: n, items: Seq::empty() };
            assert(next.1.drop_last() =~= open);
            assert(frame_tokens(f) =~= seq![tok]);
            assert(state_tokens(next.0, next.1) =~= state_tokens(top, open).push(tok));
            assert forall|i: int| 0 <= i < next.1.len() implies all_well_formed(#[trigger] next.1[i].items) by {
                if i < open.len() {
                    assert(next.1[i] == open[i]);
                }
            }
        },
        SpecToken::SectionCloser(n) => {
            let f = open.last();
            let item = close_frame(f);
            let rest = open.drop_last();
            assert(all_well_formed(open[open.len() - 1].items));
            assert(state_well_formed(top, rest)) by {
                assert forall|i: int| 0 <= i < rest.len() implies all_well_formed(#[trigger] rest[i].items) by {
                    assert(rest[i] == open[i]);
                }
            }
            assert(tokens_of(SpecAst::Sequence(f.items)) == tokens_of_all(f.items));
            assert(tokens_of(item) =~= frame_tokens(f).push(tok));
            lemma_add_item_tokens(top, rest, item);
            assert(state_tokens(top, open) =~= state_tokens(top, rest) + frame_tokens(f));
            assert(state_tokens(next.0, next.1) =~= state_tokens(top, open).push(tok));
        },
        _ => {
            let x = leaf(tok);
            assert(tokens_of(x) =~= seq![tok]);
            lemma_add_item_tokens(top, open, x);
        },
    }
}

proof fn lemma_run_tokens(toks: Seq<SpecToken>, top: Seq<SpecAst>, open: Seq<SpecFrame>)
    requires
        state_well_formed(top, open),
        run(toks, top, open) is Ok,
    ensures
        ({
            let end = run(toks, top, open)->Ok_0;
            state_tokens(end.0, end.1) == state_tokens(top, open) + toks && state_well_formed(end.0, end.1)
        }),
    decreases toks.len(),
{
    if toks.len() == 0 {
        assert(state_tokens(top, open) + toks =~= state_tokens(top, open));
    } else {
        lemma_step_tokens(toks[0], top, open);
        let next = step(toks[0], top, open)->Ok_0;
        lemma_run_tokens(toks.drop_first(), next.0, next.1);
        assert(state_tokens(top, open).push(toks[0]) + toks.drop_first() =~= state_tokens(top, open) + toks);
    }
}

/// What the parser builds spells exactly the tokens it read, and every
/// section in it has a sequence as its body.
pub proof fn lemma_parse_spells_input(toks: Seq<SpecToken>)
    requires
        parse_spec(toks) is Ok,
    ensures
        parse_spec(toks) matches Ok(SpecAst::Sequence(items)) && all_well_formed(items) && tokens_of_all(items) == toks,
{
    let e = Seq::<SpecAst>::empty();
    let o = Seq::<SpecFrame>::empty();
    lemma_parse_from_run(toks, 0, e, o);
    assert(toks.subrange(0, toks.len() as int) =~= toks);
    lemma_run_tokens(toks, e, o);
    let end = run(toks, e, o)->Ok_0;
    assert(state_tokens(e, o) =~= Seq::<SpecToken>::empty());
    assert(Seq::<SpecToken>::empty() + toks =~= toks);
    assert(state_tokens(end.0, end.1) =~= tokens_of_all(end.0));
}

struct Frame {
    kind: SectionType,
    name: crate::token::Name,
    items: Vec<Ast>,
}

impl View for Frame {
    type V = SpecFrame;

    closed spec fn view(&self) -> SpecFrame {
        SpecFrame { kind: self.kind, name: self.name@, items: asts_view(self.items@) }
    }
}

spec fn frames_view(v: Seq<Frame>) -> Seq<SpecFrame> {
    v.map_values(|f: Frame| f@)
}

proof fn lemma_push_view(v: Seq<Ast>, a: Ast)
    ensures
        asts_view(v.push(a)) == asts_view(v).push(a@),
{
    assert(v.push(a).subrange(0, v.len() as int) =~= v);
}

fn attach(top: &mut Vec<Ast>, open: &mut Vec<Frame>, item: Ast)
    ensures
        (asts_view(final(top)@), frames_view(final(open)@)) == add_item(asts_view(old(top)@), frames_view(old(open)@), item@),
{
    proof {
        lemma_push_view(top@, item);
    }
    match open.pop() {
        None => {
            top.push(item);
        },
        Some(f) => {
            let ghost rest = open@;
            let Frame { kind, name, mut items } = f;
            proof {
                lemma_push_view(items@, item);
            }
            items.push(item);
            open.push(Frame { kind, name, items });
            assert(frames_view(open@) =~= frames_view(rest).push(open@.last()@));
            assert(frames_view(old(open)@).drop_last() =~= frames_view(rest));
        },
    }
}

/// Parses a token sequence into one tree.
pub fn parse(tokens: Vec<Token>) -> (r: Result<Ast, Error>)
    ensures
        match r {
            Ok(a) => parse_spec(tokens_view(tokens@)) == Ok::<SpecAst, SpecError>(a@),
            Err(e) => parse_spec(tokens_view(tokens@)) == Err::<SpecAst, SpecError>(e@),
        },
{
    let ghost orig = tokens_view(tokens@);
    let ghost n = tokens@.len();
    let mut remaining = tokens;
    let mut rev: Vec<Token> = Vec::new();
    while remaining.len() > 0
        invariant
            n == orig.len(),
            orig == tokens_view(tokens@),
            n == remaining@.len() + rev@.len(),
            forall|j: int| 0 <= j < remaining@.len() ==> #[trigger] remaining@[j]@ == orig[j],
            forall|j: int| 0 <= j < rev@.len() ==> #[trigger] rev@[j]@ == orig[n - 1 - j],
        decreases remaining.len(),
    {
        let t = remaining.pop().unwrap();
        rev.push(t);
    }
    let mut top: Vec<Ast> = Vec::new();
    let mut open: Vec<Frame> = Vec::new();
    let ghost mut i: int = 0;
    assert(asts_view(top@) =~= Seq::<SpecAst>::empty());
    assert(frames_view(open@) =~= Seq::<SpecFrame>::empty());
    loop
        invariant
            n == orig.len(),
            orig == tokens_view(tokens@),
            0 <= i <= n,
            rev@.len() + i == n,
            forall|j: int| 0 <= j < rev@.len() ==> #[trigger] rev@[j]@ == orig[n - 1 - j],
            parse_spec(orig) == parse_from(orig, i, asts_view(top@), frames_view(open@)),
        decreases rev@.len(),
    {
        let tok = match rev.pop() {
            None => {
                if open.len() == 0 {
                    return Ok(sequence_node(top));
                } else {
                    return Err(Error::Mismatch { expected: "section closer", found: None });
                }
            },
            Some(t) => t,
        };
        assert(tok@ == orig[i]);
        match tok {
            Token::SectionOpener(kind, name) => {
                let ghost before = frames_view(open@);
                let items: Vec<Ast> = Vec::new();
                assert(asts_view(items@) =~= Seq::<SpecAst>::empty());
                open.push(Frame { kind, name, items });
                assert(frames_view(open@) =~= before.push(open@.last()@));
            },
            Token::SectionCloser(name) => {
                let ghost fv = frames_view(open@);
                match open.pop() {
                    None => {
                        return Err(Error::Mismatch { expected: "EOF", found: Some(Token::SectionCloser(name)) });
                    },
                    Some(f) => {
                        assert(f@ == fv.last());
                        assert(frames_view(open@) =~= fv.drop_last());
                        if !f.name.same(&name) {
                            return Err(Error::Mismatch { expected: "section closer", found: Some(Token::SectionCloser(name)) });
                        }
                        let Frame { kind, name: fname, items } = f;
                        let node = section_node(kind, fname, sequence_node(items));
                        attach(&mut top, &mut open, node);
                    },
                }
            },
            Token::Literal(text) => {
                attach(&mut top, &mut open, Ast::Literal(text));
            },
            Token::Interpolation(name) => {
                attach(&mut top, &mut open, Ast::Interpolation(name));
            },
            Token::UnescapedInterpolation(name) => {
                attach(&mut top, &mut open, Ast::UnescapedInterpolation(name));
            },
            Token::PartialInclude(partial_name, root) => {
                attach(&mut top, &mut open, Ast::PartialInclude { partial_name, root });
            },
        }
        proof {
            i = i + 1;
        }
    }
}

} // verus!
