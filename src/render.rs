//! Renders a tree against a stack of scopes.

use vstd::prelude::*;
use crate::ast::{ast_view, asts_view, lemma_asts_view, Ast, SpecAst};
use crate::escape::{escape, DisplayHtmlSafe};
use crate::token::{same_text, Name, SectionType, SpecName};
use crate::value::{display, iteration_items, negative_items, push_decimal, truthiness, Field, Value};
use crate::negative_iterator::NegativeIterator;

verus! {

/// A failure while rendering. Output written before it stays written.
#[derive(Debug)]
pub enum RenderError {
    /// A name climbs more scope levels than are open.
    TooManyLeadingDots { leading_dots: u32, depth: usize },
    /// No member of this name, or the value is not a record.
    NoSuchField(String),
    /// `()` on a member that is not callable.
    NotCallable(String),
    /// A callable member reached without `()`.
    NotCalled(String),
    /// A call marker on a name that has no segment to call.
    NothingToCall,
    /// The value has no text to interpolate.
    NotDisplayable,
    /// A conditional section over a value without truthiness.
    NoTruthiness,
    /// An iteration over a value that is not iterable.
    NotIterable,
    /// A negative iteration over a value that is neither optional nor result-like.
    NotNegativeIterable,
    /// No partial of this name.
    PartialNotFound(String),
    /// The partial includes itself, directly or through others.
    CircularPartial(String),
}

pub ghost enum SpecRenderError {
    TooManyLeadingDots { leading_dots: nat, depth: nat },
    NoSuchField(Seq<char>),
    NotCallable(Seq<char>),
    NotCalled(Seq<char>),
    NothingToCall,
    NotDisplayable,
    NoTruthiness,
    NotIterable,
    NotNegativeIterable,
    PartialNotFound(Seq<char>),
    CircularPartial(Seq<char>),
}

impl View for RenderError {
    type V = SpecRenderError;

    open spec fn view(&self) -> SpecRenderError {
        match self {
            RenderError::TooManyLeadingDots { leading_dots, depth } => SpecRenderError::TooManyLeadingDots {
                leading_dots: *leading_dots as nat,
                depth: *depth as nat,
            },
            RenderError::NoSuchField(s) => SpecRenderError::NoSuchField(s@),
            RenderError::NotCallable(s) => SpecRenderError::NotCallable(s@),
            RenderError::NotCalled(s) => SpecRenderError::NotCalled(s@),
            RenderError::NothingToCall => SpecRenderError::NothingToCall,
            RenderError::NotDisplayable => SpecRenderError::NotDisplayable,
            RenderError::NoTruthiness => SpecRenderError::NoTruthiness,
            RenderError::NotIterable => SpecRenderError::NotIterable,
            RenderError::NotNegativeIterable => SpecRenderError::NotNegativeIterable,
            RenderError::PartialNotFound(s) => SpecRenderError::PartialNotFound(s@),
            RenderError::CircularPartial(s) => SpecRenderError::CircularPartial(s@),
        }
    }
}

// ---------------------------------------------------------------------------
// Name resolution

/// The stack index a name starts from: the bottom of the stack without leading
/// dots, else `depth - leading_dots`; `None` where the dots climb past the bottom.
pub open spec fn scope_index(leading_dots: nat, depth: nat) -> Option<nat> {
    if depth == 0 || leading_dots > depth {
        None
    } else if leading_dots == 0 {
        Some(0)
    } else {
        Some((depth - leading_dots) as nat)
    }
}

/// The first member of `fields` called `seg`.
pub open spec fn field_named(fields: Seq<Field>, seg: Seq<char>) -> Option<Field>
    decreases fields.len(),
{
    if fields.len() == 0 {
        None
    } else if fields[0].name@ == seg {
        Some(fields[0])
    } else {
        field_named(fields.drop_first(), seg)
    }
}

/// Follows `segs` from `v`; with `call`, the last segment must be a callable member.
pub open spec fn walk(v: Value, segs: Seq<Seq<char>>, call: bool) -> Result<Value, SpecRenderError>
    decreases segs.len(),
{
    if segs.len() == 0 {
        if call { Err(SpecRenderError::NothingToCall) } else { Ok(v) }
    } else {
        let seg = segs[0];
        let last = segs.len() == 1;
        match v {
            Value::Record { fields, .. } => match field_named(fields@, seg) {
                None => Err(SpecRenderError::NoSuchField(seg)),
                Some(f) => if last && call {
                    if f.callable { Ok(f.value) } else { Err(SpecRenderError::NotCallable(seg)) }
                } else if f.callable {
                    Err(SpecRenderError::NotCalled(seg))
                } else {
                    walk(f.value, segs.drop_first(), call)
                },
            },
            _ => Err(SpecRenderError::NoSuchField(seg)),
        }
    }
}

/// The value a name denotes on a scope stack (index 0 is the render root).
pub open spec fn resolve_spec(stack: Seq<Value>, n: SpecName) -> Result<Value, SpecRenderError> {
    match scope_index(n.leading_dots, stack.len()) {
        None => Err(SpecRenderError::TooManyLeadingDots { leading_dots: n.leading_dots, depth: stack.len() }),
        Some(k) => walk(stack[k as int], n.segments, n.function_call),
    }
}

impl Name {
    /// The scope stack index this name starts from, at the given depth.
    pub fn resolve(&self, scope_depth: usize) -> (r: Result<usize, RenderError>)
        ensures
            match scope_index(self.leading_dots as nat, scope_depth as nat) {
                Some(k) => r == Ok::<usize, RenderError>(k as usize),
                None => r matches Err(e) && e@ == SpecRenderError::TooManyLeadingDots {
                    leading_dots: self.leading_dots as nat,
                    depth: scope_depth as nat,
                },
            },
    {
        let dots = self.leading_dots as usize;
        if scope_depth == 0 || dots > scope_depth {
            Err(RenderError::TooManyLeadingDots { leading_dots: self.leading_dots, depth: scope_depth })
        } else if dots == 0 {
            Ok(0)
        } else {
            Ok(scope_depth - dots)
        }
    }
}

fn field_ref<'a>(fields: &'a Vec<Field>, seg: &String) -> (r: Option<&'a Field>)
    ensures
        match r {
            Some(f) => field_named(fields@, seg@) == Some(*f),
            None => field_named(fields@, seg@) is None,
        },
{
    let mut i: usize = 0;
    assert(fields@.subrange(0, fields@.len() as int) =~= fields@);
    while i < fields.len()
        invariant
            0 <= i <= fields@.len(),
            field_named(fields@, seg@) == field_named(fields@.subrange(i as int, fields@.len() as int), seg@),
        decreases fields.len() - i,
    {
        let ghost rest = fields@.subrange(i as int, fields@.len() as int);
        assert(rest.drop_first() =~= fields@.subrange(i + 1, fields@.len() as int));
        if same_text(&fields[i].name, seg) {
            return Some(&fields[i]);
        }
        i += 1;
    }
    None
}

fn walk_ref<'a>(v: &'a Value, segs: &Vec<String>, call: bool) -> (r: Result<&'a Value, RenderError>)
    ensures
        match walk(*v, segs@.map_values(|s: String| s@), call) {
            Ok(w) => r matches Ok(x) && *x == w,
            Err(e) => r matches Err(x) && x@ == e,
        },
{
    let ghost all = segs@.map_values(|s: String| s@);
    if segs.len() == 0 {
        if call {
            return Err(RenderError::NothingToCall);
        }
        return Ok(v);
    }
    let mut cur: &'a Value = v;
    let mut i: usize = 0;
    assert(all.subrange(0, all.len() as int) =~= all);
    loop
        invariant
            0 <= i < segs@.len(),
            all == segs@.map_values(|s: String| s@),
            walk(*v, all, call) == walk(*cur, all.subrange(i as int, all.len() as int), call),
        decreases segs@.len() - i,
    {
        let ghost rest = all.subrange(i as int, all.len() as int);
        assert(rest[0] == segs@[i as int]@);
        let seg = &segs[i];
        let last = i == segs.len() - 1;
        let fields = match cur {
            Value::Record { fields, .. } => fields,
            _ => {
                return Err(RenderError::NoSuchField(seg.clone()));
            },
        };
        let f = match field_ref(fields, seg) {
            None => {
                return Err(RenderError::NoSuchField(seg.clone()));
            },
            Some(f) => f,
        };
        if last && call {
            if f.callable {
                return Ok(&f.value);
            } else {
                return Err(RenderError::NotCallable(seg.clone()));
            }
        } else if f.callable {
            return Err(RenderError::NotCalled(seg.clone()));
        }
        assert(rest.drop_first() =~= all.subrange(i + 1, all.len() as int));
        cur = &f.value;
        if last {
            assert(all.subrange(i + 1, all.len() as int) =~= Seq::<Seq<char>>::empty());
            assert(walk(*cur, Seq::<Seq<char>>::empty(), call) == Ok::<Value, SpecRenderError>(*cur));
            return Ok(cur);
        }
        i += 1;
    }
}

/// The plain values behind a stack of references.
pub open spec fn values_of(s: Seq<&Value>) -> Seq<Value> {
    s.map_values(|r: &Value| *r)
}

/// Resolves a name against a scope stack.
pub fn resolve_value<'a>(stack: &Vec<&'a Value>, name: &Name) -> (r: Result<&'a Value, RenderError>)
    ensures
        match resolve_spec(values_of(stack@), name@) {
            Ok(w) => r matches Ok(x) && *x == w,
            Err(e) => r matches Err(x) && x@ == e,
        },
{
    let k = match name.resolve(stack.len()) {
        Ok(k) => k,
        Err(e) => {
            return Err(e);
        },
    };
    walk_ref(stack[k], &name.segments, name.function_call)
}

// ---------------------------------------------------------------------------
// Partials

/// Parsed partial templates, by name. Where a name occurs twice, the first
/// entry is the one used.
pub struct Partials {
    pub entries: Vec<(String, Ast)>,
}

impl View for Partials {
    type V = Seq<(Seq<char>, SpecAst)>;

    open spec fn view(&self) -> Seq<(Seq<char>, SpecAst)> {
        self.entries@.map_values(|e: (String, Ast)| (e.0@, e.1@))
    }
}

impl Partials {
    /// A table with no partials.
    pub fn new() -> (r: Partials)
        ensures
            r@ == Seq::<(Seq<char>, SpecAst)>::empty(),
    {
        let r = Partials { entries: Vec::new() };
        assert(r@ =~= Seq::<(Seq<char>, SpecAst)>::empty());
        r
    }

    /// Adds a partial under `name`.
    pub fn add(&mut self, name: String, ast: Ast)
        ensures
            final(self)@ == old(self)@.push((name@, ast@)),
    {
        self.entries.push((name, ast));
        assert(self@ =~= old(self)@.push((self.entries@.last().0@, self.entries@.last().1@)));
    }
}

/// The first partial called `p`.
pub open spec fn partial_named(table: Seq<(Seq<char>, SpecAst)>, p: Seq<char>) -> Option<SpecAst>
    decreases table.len(),
{
    if table.len() == 0 {
        None
    } else if table[0].0 == p {
        Some(table[0].1)
    } else {
        partial_named(table.drop_first(), p)
    }
}

// ---------------------------------------------------------------------------
// The meaning of a tree

/// The values a section renders its body for, one scope each.
pub open spec fn section_items(kind: SectionType, v: Value) -> Result<Seq<Value>, SpecRenderError> {
    match kind {
        SectionType::Iteration => match iteration_items(v) {
            Some(s) => Ok(s),
            None => Err(SpecRenderError::NotIterable),
        },
        SectionType::NegativeIteration => match negative_items(v) {
            Some(s) => Ok(s),
            None => Err(SpecRenderError::NotNegativeIterable),
        },
        SectionType::Conditional => match truthiness(v) {
            Some(t) => Ok(if t { seq![v] } else { Seq::empty() }),
            None => Err(SpecRenderError::NoTruthiness),
        },
        SectionType::NegativeConditional => match truthiness(v) {
            Some(t) => Ok(if !t { seq![v] } else { Seq::empty() }),
            None => Err(SpecRenderError::NoTruthiness),
        },
        SectionType::Scope => Ok(seq![v]),
    }
}

/// `acc` followed by the text of `r`, or the error of `r`.
pub open spec fn then_text(acc: Seq<char>, r: Result<Seq<char>, SpecRenderError>) -> Result<Seq<char>, SpecRenderError> {
    match r {
        Ok(t) => Ok(acc + t),
        Err(e) => Err(e),
    }
}

/// The text of a node on a scope stack. `chain` holds the partials being
/// rendered; including one of them again fails, and so does a chain as long
/// as the table, which only a cycle can reach.
pub open spec fn render_node(
    a: SpecAst,
    stack: Seq<Value>,
    table: Seq<(Seq<char>, SpecAst)>,
    chain: Seq<Seq<char>>,
) -> Result<Seq<char>, SpecRenderError>
    decreases table.len() - chain.len(), a, 0nat,
{
    match a {
        SpecAst::Sequence(items) => render_items(items, stack, table, chain),
        SpecAst::Literal(t) => Ok(t),
        SpecAst::Interpolation(n) => match resolve_spec(stack, n) {
            Err(e) => Err(e),
            Ok(v) => match display(v) {
                None => Err(SpecRenderError::NotDisplayable),
                Some(t) => Ok(escape(t)),
            },
        },
        SpecAst::UnescapedInterpolation(n) => match resolve_spec(stack, n) {
            Err(e) => Err(e),
            Ok(v) => match display(v) {
                None => Err(SpecRenderError::NotDisplayable),
                Some(t) => Ok(t),
            },
        },
        SpecAst::Section(kind, n, body) => match resolve_spec(stack, n) {
            Err(e) => Err(e),
            Ok(v) => match section_items(kind, v) {
                Err(e) => Err(e),
                Ok(vals) => render_each(*body, vals, stack, table, chain),
            },
        },
        SpecAst::PartialInclude(p, root) => match resolve_spec(stack, root) {
            Err(e) => Err(e),
            Ok(v) => match partial_named(table, p) {
                None => Err(SpecRenderError::PartialNotFound(p)),
                Some(pa) => if chain.contains(p) || chain.len() >= table.len() {
                    Err(SpecRenderError::CircularPartial(p))
                } else {
                    render_node(pa, seq![v], table, chain.push(p))
                },
            },
        },
    }
}

/// The texts of `items`, one after the other.
pub open spec fn render_items(
    items: Seq<SpecAst>,
    stack: Seq<Value>,
    table: Seq<(Seq<char>, SpecAst)>,
    chain: Seq<Seq<char>>,
) -> Result<Seq<char>, SpecRenderError>
    decreases table.len() - chain.len(), items, 0nat,
{
    if items.len() == 0 {
        Ok(Seq::empty())
    } else {
        match render_node(items[0], stack, table, chain) {
            Err(e) => Err(e),
            Ok(t) => then_text(t, render_items(items.subrange(1, items.len() as int), stack, table, chain)),
        }
    }
}

/// The text of `body` once per value, each pushed as the innermost scope.
pub open spec fn render_each(
    body: SpecAst,
    vals: Seq<Value>,
    stack: Seq<Value>,
    table: Seq<(Seq<char>, SpecAst)>,
    chain: Seq<Seq<char>>,
) -> Result<Seq<char>, SpecRenderError>
    decreases table.len() - chain.len(), body, vals.len() + 1,
{
    if vals.len() == 0 {
        Ok(Seq::empty())
    } else {
        match render_node(body, stack.push(vals[0]), table, chain) {
            Err(e) => Err(e),
            Ok(t) => then_text(t, render_each(body, vals.subrange(1, vals.len() as int), stack, table, chain)),
        }
    }
}

/// The text of a whole template rendered against `root`.
pub open spec fn render_spec(a: SpecAst, root: Value, table: Seq<(Seq<char>, SpecAst)>) -> Result<Seq<char>, SpecRenderError> {
    render_node(a, seq![root], table, Seq::empty())
}

// ---------------------------------------------------------------------------
// Rendering

/// `after` begins with `before`.
pub open spec fn extends(after: Seq<char>, before: Seq<char>) -> bool {
    before.len() <= after.len() && after.subrange(0, before.len() as int) == before
}

/// The sink went from `before` to `after` as `expected` says: its text was
/// appended on success; on failure the error matches and nothing was taken back.
pub open spec fn outcome(
    expected: Result<Seq<char>, SpecRenderError>,
    r: Result<(), RenderError>,
    before: Seq<char>,
    after: Seq<char>,
) -> bool {
    match expected {
        Ok(t) => r is Ok && after == before + t,
        Err(e) => r matches Err(x) && x@ == e && extends(after, before),
    }
}

proof fn lemma_extends_trans(a: Seq<char>, b: Seq<char>, c: Seq<char>)
    requires
        extends(a, b),
        extends(b, c),
    ensures
        extends(a, c),
{
    assert(a.subrange(0, c.len() as int) =~= b.subrange(0, c.len() as int));
}

proof fn lemma_extends_append(a: Seq<char>, t: Seq<char>)
    ensures
        extends(a + t, a),
{
    assert((a + t).subrange(0, a.len() as int) =~= a);
}

pub open spec fn strings_of(v: Seq<String>) -> Seq<Seq<char>> {
    v.map_values(|x: String| x@)
}

proof fn lemma_strings_push(s: Seq<String>, x: String)
    ensures
        strings_of(s.push(x)) == strings_of(s).push(x@),
{
    assert forall|j: int| 0 <= j < s.len() + 1 implies #[trigger] strings_of(s.push(x))[j] == strings_of(s).push(x@)[j] by {
        if j < s.len() {
            assert(s.push(x)[j] == s[j]);
        }
    }
    assert(strings_of(s.push(x)) =~= strings_of(s).push(x@));
}

proof fn lemma_values_push(s: Seq<&Value>, x: &Value)
    ensures
        values_of(s.push(x)) == values_of(s).push(*x),
{
    assert forall|j: int| 0 <= j < s.len() + 1 implies #[trigger] values_of(s.push(x))[j] == values_of(s).push(*x)[j] by {
        if j < s.len() {
            assert(s.push(x)[j] == s[j]);
        }
    }
    assert(values_of(s.push(x)) =~= values_of(s).push(*x));
}

fn write_value(v: &Value, escaped: bool, out: &mut String) -> (r: Result<(), RenderError>)
    ensures
        match display(*v) {
            Some(t) => r is Ok && final(out)@ == old(out)@ + (if escaped { escape(t) } else { t }),
            None => r matches Err(x) && x@ == SpecRenderError::NotDisplayable && final(out)@ == old(out)@,
        },
{
    let mut text = String::new();
    match v {
        Value::Bool(b) => {
            if *b {
                text.append("true");
            } else {
                text.append("false");
            }
        },
        Value::Int(i) => {
            push_decimal(&mut text, *i);
        },
        Value::Text(t) => {
            text.append(t.as_str());
        },
        _ => {
            return Err(RenderError::NotDisplayable);
        },
    }
    assert(display(*v) == Some(text@));
    if escaped {
        text.safe_fmt(out);
    } else {
        out.append(text.as_str());
    }
    Ok(())
}

fn section_values<'b>(kind: SectionType, v: &'b Value, unit: &'b Value) -> (r: Result<Vec<&'b Value>, RenderError>)
    requires
        *unit == Value::Unit,
    ensures
        match section_items(kind, *v) {
            Ok(s) => r matches Ok(x) && values_of(x@) == s,
            Err(e) => r matches Err(x) && x@ == e,
        },
{
    let mut vals: Vec<&'b Value> = Vec::new();
    match kind {
        SectionType::Iteration => match v {
            Value::List(l) => {
                let mut i: usize = 0;
                while i < l.len()
                    invariant
                        0 <= i <= l@.len(),
                        values_of(vals@) == l@.subrange(0, i as int),
                    decreases l.len() - i,
                {
                    proof {
                        lemma_values_push(vals@, &l@[i as int]);
                    }
                    vals.push(&l[i]);
                    assert(l@.subrange(0, i + 1) =~= l@.subrange(0, i as int).push(l@[i as int]));
                    i += 1;
                }
                assert(l@.subrange(0, l@.len() as int) =~= l@);
            },
            Value::Maybe(Some(x)) => {
                vals.push(&**x);
            },
            Value::Outcome(Ok(x)) => {
                vals.push(&**x);
            },
            Value::Maybe(None) => {},
            Value::Outcome(Err(_)) => {},
            _ => {
                return Err(RenderError::NotIterable);
            },
        },
        SectionType::NegativeIteration => match v {
            Value::Maybe(o) => {
                if o.neg_iter().is_some() {
                    vals.push(unit);
                }
            },
            Value::Outcome(res) => {
                match res.neg_iter() {
                    Some(e) => {
                        vals.push(&**e);
                    },
                    None => {},
                }
            },
            _ => {
                return Err(RenderError::NotNegativeIterable);
            },
        },
        SectionType::Conditional | SectionType::NegativeConditional => match v.truthiness() {
            Some(t) => {
                if t == (kind == SectionType::Conditional) {
                    vals.push(v);
                }
            },
            None => {
                return Err(RenderError::NoTruthiness);
            },
        },
        SectionType::Scope => {
            vals.push(v);
        },
    }
    proof {
        match section_items(kind, *v) {
            Ok(s) => {
                assert(values_of(vals@) =~= s);
            },
            Err(_) => {},
        }
    }
    Ok(vals)
}

fn partial_ref<'p>(partials: &'p Partials, name: &String) -> (r: Option<&'p Ast>)
    ensures
        match r {
            Some(a) => partial_named(partials@, name@) == Some(a@),
            None => partial_named(partials@, name@) is None,
        },
{
    let mut i: usize = 0;
    assert(partials@.subrange(0, partials@.len() as int) =~= partials@);
    while i < partials.entries.len()
        invariant
            0 <= i <= partials@.len(),
            partials@.len() == partials.entries@.len(),
            partial_named(partials@, name@) == partial_named(partials@.subrange(i as int, partials@.len() as int), name@),
        decreases partials.entries.len() - i,
    {
        let ghost rest = partials@.subrange(i as int, partials@.len() as int);
        assert(rest.drop_first() =~= partials@.subrange(i + 1, partials@.len() as int));
        assert(rest[0] == partials@[i as int]);
        if same_text(&partials.entries[i].0, name) {
            return Some(&partials.entries[i].1);
        }
        i += 1;
    }
    None
}

fn in_chain(chain: &Vec<String>, name: &String) -> (r: bool)
    ensures
        r == strings_of(chain@).contains(name@),
{
    let mut i: usize = 0;
    while i < chain.len()
        invariant
            0 <= i <= chain@.len(),
            forall|j: int| 0 <= j < i ==> chain@[j]@ != name@,
        decreases chain.len() - i,
    {
        if same_text(&chain[i], name) {
            assert(strings_of(chain@)[i as int] == name@);
            return true;
        }
        i += 1;
    }
    assert forall|j: int| 0 <= j < strings_of(chain@).len() implies strings_of(chain@)[j] != name@ by {
        assert(strings_of(chain@)[j] == chain@[j]@);
    }
    false
}

fn extended_chain(chain: &Vec<String>, name: &String) -> (r: Vec<String>)
    ensures
        strings_of(r@) == strings_of(chain@).push(name@),
{
    let mut r: Vec<String> = Vec::new();
    let mut i: usize = 0;
    while i < chain.len()
        invariant
            0 <= i <= chain@.len(),
            strings_of(r@) == strings_of(chain@).subrange(0, i as int),
        decreases chain.len() - i,
    {
        let c = chain[i].clone();
        let ghost prev = r@;
        proof {
            lemma_strings_push(prev, c);
        }
        r.push(c);
        assert(strings_of(chain@).subrange(0, i + 1) =~= strings_of(chain@).subrange(0, i as int).push(chain@[i as int]@));
        i += 1;
    }
    let c = name.clone();
    proof {
        lemma_strings_push(r@, c);
        assert(strings_of(chain@).subrange(0, chain@.len() as int) =~= strings_of(chain@));
    }
    r.push(c);
    r
}

fn pushed<'b>(stack: &Vec<&'b Value>, v: &'b Value) -> (r: Vec<&'b Value>)
    ensures
        values_of(r@) == values_of(stack@).push(*v),
{
    let mut r: Vec<&'b Value> = Vec::new();
    let mut i: usize = 0;
    while i < stack.len()
        invariant
            0 <= i <= stack@.len(),
            values_of(r@) == values_of(stack@).subrange(0, i as int),
        decreases stack.len() - i,
    {
        proof {
            lemma_values_push(r@, stack@[i as int]);
        }
        r.push(stack[i]);
        assert(values_of(stack@).subrange(0, i + 1) =~= values_of(stack@).subrange(0, i as int).push(*stack@[i as int]));
        i += 1;
    }
    proof {
        lemma_values_push(r@, v);
        assert(values_of(stack@).subrange(0, stack@.len() as int) =~= values_of(stack@));
    }
    r.push(v);
    r
}

fn render_in<'a>(
    a: &Ast,
    stack: &Vec<&'a Value>,
    partials: &Partials,
    chain: &Vec<String>,
    out: &mut String,
) -> (r: Result<(), RenderError>)
    ensures
        outcome(render_node(a@, values_of(stack@), partials@, strings_of(chain@)), r, old(out)@, final(out)@),
    decreases partials@.len() - chain@.len(), *a, 1nat,
{
    let ghost table = partials@;
    let ghost ch = strings_of(chain@);
    let ghost st = values_of(stack@);
    proof {
        lemma_extends_append(out@, Seq::empty());
        assert(out@ + Seq::<char>::empty() =~= out@);
    }
    match a {
        Ast::Sequence(items) => {
            let ghost iv = asts_view(items@);
            proof {
                lemma_asts_view(items@);
                assert(iv.subrange(0, iv.len() as int) =~= iv);
                assert(old(out)@ + Seq::<char>::empty() =~= old(out)@);
            }
            let mut i: usize = 0;
            let ghost mut acc: Seq<char> = Seq::empty();
            while i < items.len()
                invariant
                    0 <= i <= items@.len(),
                    *a == Ast::Sequence(*items),
                    iv == asts_view(items@),
                    iv.len() == items@.len(),
                    forall|j: int| 0 <= j < items@.len() ==> #[trigger] iv[j] == ast_view(items@[j]),
                    table == partials@,
                    ch == strings_of(chain@),
                    st == values_of(stack@),
                    out@ == old(out)@ + acc,
                    render_items(iv, st, table, ch) == then_text(acc, render_items(iv.subrange(i as int, iv.len() as int), st, table, ch)),
                decreases items.len() - i,
            {
                let ghost rest = iv.subrange(i as int, iv.len() as int);
                assert(rest[0] == iv[i as int]);
                assert(rest.subrange(1, rest.len() as int) =~= iv.subrange(i + 1, iv.len() as int));
                assert(decreases_to!(*a => (*a)->Sequence_0));
                assert(decreases_to!(*items => items[i as int]));
                let ghost before = out@;
                let ghost r0 = render_node(iv[i as int], st, table, ch);
                assert(items@[i as int]@ == iv[i as int]);
                assert(render_items(rest, st, table, ch) == match r0 {
                    Err(e) => Err(e),
                    Ok(t) => then_text(t, render_items(iv.subrange(i + 1, iv.len() as int), st, table, ch)),
                });
                let res = render_in(&items[i], stack, partials, chain, out);
                match res {
                    Err(e) => {
                        proof {
                            lemma_extends_append(old(out)@, acc);
                            lemma_extends_trans(out@, before, old(out)@);
                        }
                        return Err(e);
                    },
                    Ok(()) => {},
                }
                proof {
                    let t = r0->Ok_0;
                    assert(out@ =~= old(out)@ + (acc + t));
                    match render_items(iv.subrange(i + 1, iv.len() as int), st, table, ch) {
                        Ok(u) => {
                            assert(acc + (t + u) =~= (acc + t) + u);
                        },
                        Err(_) => {},
                    }
                    acc = acc + t;
                }
                i += 1;
            }
            proof {
                assert(iv.subrange(i as int, iv.len() as int) =~= Seq::<SpecAst>::empty());
                assert(acc + Seq::<char>::empty() =~= acc);
            }
            Ok(())
        },
        Ast::Literal(t) => {
            out.append(t.as_str());
            Ok(())
        },
        Ast::Interpolation(n) => {
            let v = match resolve_value(stack, n) {
                Ok(v) => v,
                Err(e) => {
                    return Err(e);
                },
            };
            write_value(v, true, out)
        },
        Ast::UnescapedInterpolation(n) => {
            let v = match resolve_value(stack, n) {
                Ok(v) => v,
                Err(e) => {
                    return Err(e);
                },
            };
            write_value(v, false, out)
        },
        Ast::Iteration { name, nested } => render_section(a, SectionType::Iteration, name, nested, stack, partials, chain, out),
        Ast::NegativeIteration { name, nested } => render_section(a, SectionType::NegativeIteration, name, nested, stack, partials, chain, out),
        Ast::Conditional { name, nested } => render_section(a, SectionType::Conditional, name, nested, stack, partials, chain, out),
        Ast::NegativeConditional { name, nested } => render_section(a, SectionType::NegativeConditional, name, nested, stack, partials, chain, out),
        Ast::Scope { name, nested } => render_section(a, SectionType::Scope, name, nested, stack, partials, chain, out),
        Ast::PartialInclude { partial_name, root } => {
            let v = match resolve_value(stack, root) {
                Ok(v) => v,
                Err(e) => {
                    return Err(e);
                },
            };
            let pa = match partial_ref(partials, partial_name) {
                Some(pa) => pa,
                None => {
                    return Err(RenderError::PartialNotFound(partial_name.clone()));
                },
            };
            if in_chain(chain, partial_name) || chain.len() >= partials.entries.len() {
                return Err(RenderError::CircularPartial(partial_name.clone()));
            }
            let inner_chain = extended_chain(chain, partial_name);
            assert(inner_chain@.len() == strings_of(inner_chain@).len());
            assert(chain@.len() == strings_of(chain@).len());
            assert(partials@.len() == partials.entries@.len());
            let mut inner: Vec<&Value> = Vec::new();
            inner.push(v);
            assert(values_of(inner@) =~= seq![*v]);
            render_in(pa, &inner, partials, &inner_chain, out)
        },
    }
}

/// The parts of a section node: its type, name and body.
pub open spec fn section_parts(a: Ast) -> Option<(SectionType, Name, Box<Ast>)> {
    match a {
        Ast::Iteration { name, nested } => Some((SectionType::Iteration, name, nested)),
        Ast::NegativeIteration { name, nested } => Some((SectionType::NegativeIteration, name, nested)),
        Ast::Conditional { name, nested } => Some((SectionType::Conditional, name, nested)),
        Ast::NegativeConditional { name, nested } => Some((SectionType::NegativeConditional, name, nested)),
        Ast::Scope { name, nested } => Some((SectionType::Scope, name, nested)),
        _ => None,
    }
}

proof fn lemma_section_parts(a: Ast)
    ensures
        section_parts(a) matches Some((k, n, b)) ==> decreases_to!(a => *b)
            && ast_view(a) == SpecAst::Section(k, n@, Box::new(ast_view(*b))),
{
    match a {
        Ast::Iteration { .. } => {
            assert(decreases_to!(a => a->Iteration_nested));
        },
        Ast::NegativeIteration { .. } => {
            assert(decreases_to!(a => a->NegativeIteration_nested));
        },
        Ast::Conditional { .. } => {
            assert(decreases_to!(a => a->Conditional_nested));
        },
        Ast::NegativeConditional { .. } => {
            assert(decreases_to!(a => a->NegativeConditional_nested));
        },
        Ast::Scope { .. } => {
            assert(decreases_to!(a => a->Scope_nested));
        },
        _ => {},
    }
}

fn render_section<'a>(
    a: &Ast,
    kind: SectionType,
    name: &Name,
    nested: &Box<Ast>,
    stack: &Vec<&'a Value>,
    partials: &Partials,
    chain: &Vec<String>,
    out: &mut String,
) -> (r: Result<(), RenderError>)
    requires
        section_parts(*a) == Some((kind, *name, *nested)),
    ensures
        outcome(render_node(a@, values_of(stack@), partials@, strings_of(chain@)), r, old(out)@, final(out)@),
    decreases partials@.len() - chain@.len(), *a, 0nat,
{
    let ghost table = partials@;
    let ghost ch = strings_of(chain@);
    let ghost st = values_of(stack@);
    let ghost body = (**nested)@;
    proof {
        lemma_section_parts(*a);
        lemma_extends_append(out@, Seq::empty());
        assert(out@ + Seq::<char>::empty() =~= out@);
    }
    let v = match resolve_value(stack, name) {
        Ok(v) => v,
        Err(e) => {
            return Err(e);
        },
    };
    let unit = Value::Unit;
    let vals = match section_values(kind, v, &unit) {
        Ok(vals) => vals,
        Err(e) => {
            return Err(e);
        },
    };
    let ghost vv = values_of(vals@);
    assert(vv.subrange(0, vv.len() as int) =~= vv);
    assert(render_node(a@, st, table, ch) == render_each(body, vv, st, table, ch));
    assert(old(out)@ + Seq::<char>::empty() =~= old(out)@);
    let mut i: usize = 0;
    let ghost mut acc: Seq<char> = Seq::empty();
    while i < vals.len()
        invariant
            0 <= i <= vals@.len(),
            vv == values_of(vals@),
            render_node(a@, st, table, ch) == render_each(body, vv, st, table, ch),
            decreases_to!(*a => **nested),
            body == (**nested)@,
            table == partials@,
            ch == strings_of(chain@),
            st == values_of(stack@),
            out@ == old(out)@ + acc,
            render_each(body, vv, st, table, ch) == then_text(acc, render_each(body, vv.subrange(i as int, vv.len() as int), st, table, ch)),
        decreases vals.len() - i,
    {
        let ghost rest = vv.subrange(i as int, vv.len() as int);
        assert(rest[0] == vv[i as int]);
        assert(rest.subrange(1, rest.len() as int) =~= vv.subrange(i + 1, vv.len() as int));
        let inner = pushed(stack, vals[i]);
        let ghost before = out@;
        let ghost r0 = render_node(body, st.push(vv[i as int]), table, ch);
        assert(vv[i as int] == *vals@[i as int]);
        assert(values_of(inner@) == st.push(vv[i as int]));
        assert(render_each(body, rest, st, table, ch) == match r0 {
            Err(e) => Err(e),
            Ok(t) => then_text(t, render_each(body, vv.subrange(i + 1, vv.len() as int), st, table, ch)),
        });
        let res = render_in(&**nested, &inner, partials, chain, out);
        match res {
            Err(e) => {
                proof {
                    lemma_extends_append(old(out)@, acc);
                    lemma_extends_trans(out@, before, old(out)@);
                }
                return Err(e);
            },
            Ok(()) => {},
        }
        proof {
            let t = r0->Ok_0;
            assert(out@ =~= old(out)@ + (acc + t));
            match render_each(body, vv.subrange(i + 1, vv.len() as int), st, table, ch) {
                Ok(u) => {
                    assert(acc + (t + u) =~= (acc + t) + u);
                },
                Err(_) => {},
            }
            acc = acc + t;
        }
        i += 1;
    }
    proof {
        assert(vv.subrange(i as int, vv.len() as int) =~= Seq::<Value>::empty());
        assert(acc + Seq::<char>::empty() =~= acc);
    }
    Ok(())
}

/// Renders `ast` with `root` as the only scope, appending the text to `out`.
/// On failure the text written so far stays in `out`.
pub fn render(ast: &Ast, root: &Value, partials: &Partials, out: &mut String) -> (r: Result<(), RenderError>)
    ensures
        outcome(render_spec(ast@, *root, partials@), r, old(out)@, final(out)@),
{
    let mut stack: Vec<&Value> = Vec::new();
    stack.push(root);
    let chain: Vec<String> = Vec::new();
    assert(values_of(stack@) =~= seq![*root]);
    assert(strings_of(chain@) =~= Seq::<Seq<char>>::empty());
    render_in(ast, &stack, partials, &chain, out)
}

/// Renders `ast` with `root` as the only scope, into a new string.
pub fn render_to_string(ast: &Ast, root: &Value, partials: &Partials) -> (r: Result<String, RenderError>)
    ensures
        match render_spec(ast@, *root, partials@) {
            Ok(t) => r matches Ok(s) && s@ == t,
            Err(e) => r matches Err(x) && x@ == e,
        },
{
    let mut out = String::new();
    match render(ast, root, partials, &mut out) {
        Ok(()) => {
            assert(out@ =~= Seq::<char>::empty() + out@);
            Ok(out)
        },
        Err(e) => Err(e),
    }
}

} // verus!
