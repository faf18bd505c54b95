//! The tree that the parser builds from a token sequence.

use vstd::prelude::*;
use crate::token::{same_text, Name, SectionType, SpecName};

verus! {

#[derive(Debug)]
pub enum Ast {
    Sequence(Vec<Ast>),
    Literal(String),
    Interpolation(Name),
    UnescapedInterpolation(Name),
    Iteration { name: Name, nested: Box<Ast> },
    NegativeIteration { name: Name, nested: Box<Ast> },
    Conditional { name: Name, nested: Box<Ast> },
    NegativeConditional { name: Name, nested: Box<Ast> },
    Scope { name: Name, nested: Box<Ast> },
    PartialInclude { partial_name: String, root: Name },
}

/// The mathematical value of an [`Ast`]; the five section variants share one
/// shape, told apart by their [`SectionType`].
pub ghost enum SpecAst {
    Sequence(Seq<SpecAst>),
    Literal(Seq<char>),
    Interpolation(SpecName),
    UnescapedInterpolation(SpecName),
    Section(SectionType, SpecName, Box<SpecAst>),
    PartialInclude(Seq<char>, SpecName),
}

pub open spec fn ast_view(a: Ast) -> SpecAst
    decreases a, 1nat,
{
    match a {
        Ast::Sequence(v) => SpecAst::Sequence(asts_view(v@)),
        Ast::Literal(t) => SpecAst::Literal(t@),
        Ast::Interpolation(n) => SpecAst::Interpolation(n@),
        Ast::UnescapedInterpolation(n) => SpecAst::UnescapedInterpolation(n@),
        Ast::Iteration { name, nested } => SpecAst::Section(SectionType::Iteration, name@, Box::new(ast_view(*nested))),
        Ast::NegativeIteration { name, nested } => SpecAst::Section(SectionType::NegativeIteration, name@, Box::new(ast_view(*nested))),
        Ast::Conditional { name, nested } => SpecAst::Section(SectionType::Conditional, name@, Box::new(ast_view(*nested))),
        Ast::NegativeConditional { name, nested } => SpecAst::Section(SectionType::NegativeConditional, name@, Box::new(ast_view(*nested))),
        Ast::Scope { name, nested } => SpecAst::Section(SectionType::Scope, name@, Box::new(ast_view(*nested))),
        Ast::PartialInclude { partial_name, root } => SpecAst::PartialInclude(partial_name@, root@),
    }
}

pub open spec fn asts_view(s: Seq<Ast>) -> Seq<SpecAst>
    decreases s, 0nat,
{
    if s.len() == 0 {
        Seq::empty()
    } else {
        asts_view(s.subrange(0, s.len() - 1)).push(ast_view(s[s.len() - 1]))
    }
}

impl View for Ast {
    type V = SpecAst;

    open spec fn view(&self) -> SpecAst {
        ast_view(*self)
    }
}

pub proof fn lemma_asts_view(s: Seq<Ast>)
    ensures
        asts_view(s).len() == s.len(),
        forall|i: int| 0 <= i < s.len() ==> #[trigger] asts_view(s)[i] == ast_view(s[i]),
    decreases s.len(),
{
    if s.len() > 0 {
        lemma_asts_view(s.subrange(0, s.len() - 1));
    }
}

/// Builds the node for a section of the given type.
pub fn section_node(kind: SectionType, name: Name, nested: Ast) -> (r: Ast)
    ensures
        r@ == SpecAst::Section(kind, name@, Box::new(nested@)),
{
    let nested = Box::new(nested);
    match kind {
        SectionType::Iteration => Ast::Iteration { name, nested },
        SectionType::NegativeIteration => Ast::NegativeIteration { name, nested },
        SectionType::Conditional => Ast::Conditional { name, nested },
        SectionType::NegativeConditional => Ast::NegativeConditional { name, nested },
        SectionType::Scope => Ast::Scope { name, nested },
    }
}

/// Builds a sequence node from its items.
pub fn sequence_node(items: Vec<Ast>) -> (r: Ast)
    ensures
        r@ == SpecAst::Sequence(asts_view(items@)),
{
    Ast::Sequence(items)
}

impl Ast {
    /// Structural equality of two trees.
    pub fn same(&self, other: &Ast) -> (r: bool)
        ensures
            r == (self@ == other@),
        decreases self,
    {
        match (self, other) {
            (Ast::Sequence(a), Ast::Sequence(b)) => {
                proof {
                    lemma_asts_view(a@);
                    lemma_asts_view(b@);
                }
                if a.len() != b.len() {
                    assert(asts_view(a@).len() != asts_view(b@).len());
                    return false;
                }
                let mut i: usize = 0;
                while i < a.len()
                    invariant
                        a.len() == b.len(),
                        0 <= i <= a.len(),
                        *self == Ast::Sequence(*a),
                        *other == Ast::Sequence(*b),
                        asts_view(a@).len() == a@.len(),
                        asts_view(b@).len() == b@.len(),
                        forall|j: int| 0 <= j < a@.len() ==> #[trigger] asts_view(a@)[j] == ast_view(a@[j]),
                        forall|j: int| 0 <= j < b@.len() ==> #[trigger] asts_view(b@)[j] == ast_view(b@[j]),
                        forall|j: int| 0 <= j < i ==> ast_view(a@[j]) == ast_view(b@[j]),
                    decreases a.len() - i,
                {
                    assert(decreases_to!(*self => (*self)->Sequence_0));
                    assert(decreases_to!(*a => a[i as int]));
                    if !a[i].same(&b[i]) {
                        assert(asts_view(a@)[i as int] != asts_view(b@)[i as int]);
                        return false;
                    }
                    i += 1;
                }
                assert(asts_view(a@) =~= asts_view(b@));
                true
            },
            (Ast::Literal(a), Ast::Literal(b)) => same_text(a, b),
            (Ast::Interpolation(a), Ast::Interpolation(b)) => a.same(b),
            (Ast::UnescapedInterpolation(a), Ast::UnescapedInterpolation(b)) => a.same(b),
            (Ast::Iteration { name: a, nested: x }, Ast::Iteration { name: b, nested: y }) => a.same(b) && (**x).same(&**y),
            (Ast::NegativeIteration { name: a, nested: x }, Ast::NegativeIteration { name: b, nested: y }) => a.same(b) && (**x).same(&**y),
            (Ast::Conditional { name: a, nested: x }, Ast::Conditional { name: b, nested: y }) => a.same(b) && (**x).same(&**y),
            (Ast::NegativeConditional { name: a, nested: x }, Ast::NegativeConditional { name: b, nested: y }) => a.same(b) && (**x).same(&**y),
            (Ast::Scope { name: a, nested: x }, Ast::Scope { name: b, nested: y }) => a.same(b) && (**x).same(&**y),
            (Ast::PartialInclude { partial_name: p, root: a }, Ast::PartialInclude { partial_name: q, root: b }) => same_text(p, q) && a.same(b),
            _ => false,
        }
    }
}

/// The partial names a tree includes, in the order they occur.
pub open spec fn partials_in(a: SpecAst) -> Seq<Seq<char>>
    decreases a, 1nat,
{
    match a {
        SpecAst::Sequence(items) => partials_in_all(items),
        SpecAst::Section(_, _, body) => partials_in(*body),
        SpecAst::PartialInclude(p, _) => seq![p],
        _ => Seq::empty(),
    }
}

pub open spec fn partials_in_all(items: Seq<SpecAst>) -> Seq<Seq<char>>
    decreases items, 0nat,
{
    if items.len() == 0 {
        Seq::empty()
    } else {
        partials_in_all(items.subrange(0, items.len() - 1)) + partials_in(items[items.len() - 1])
    }
}

/// Appends to `out` the partial names that `a` includes, in order.
pub fn partial_names(a: &Ast, out: &mut Vec<String>)
    ensures
        final(out)@.map_values(|s: String| s@) == old(out)@.map_values(|s: String| s@) + partials_in(a@),
    decreases a,
{
    let ghost before = out@.map_values(|s: String| s@);
    match a {
        Ast::Sequence(items) => {
            proof {
                lemma_asts_view(items@);
            }
            let ghost iv = asts_view(items@);
            let mut i: usize = 0;
            assert(iv.subrange(0, 0) =~= Seq::<SpecAst>::empty());
            assert(before + Seq::<Seq<char>>::empty() =~= before);
            while i < items.len()
                invariant
                    0 <= i <= items@.len(),
                    *a == Ast::Sequence(*items),
                    iv == asts_view(items@),
                    iv.len() == items@.len(),
                    forall|j: int| 0 <= j < items@.len() ==> #[trigger] iv[j] == ast_view(items@[j]),
                    out@.map_values(|s: String| s@) == before + partials_in_all(iv.subrange(0, i as int)),
                decreases items.len() - i,
            {
                assert(decreases_to!(*a => (*a)->Sequence_0));
                assert(decreases_to!(*items => items[i as int]));
                partial_names(&items[i], out);
                assert(iv.subrange(0, i + 1).subrange(0, i as int) =~= iv.subrange(0, i as int));
                assert(iv.subrange(0, i + 1)[i as int] == iv[i as int]);
                assert(before + partials_in_all(iv.subrange(0, i as int)) + partials_in(iv[i as int])
                    =~= before + partials_in_all(iv.subrange(0, i + 1)));
                i += 1;
            }
            assert(iv.subrange(0, i as int) =~= iv);
        },
        Ast::Iteration { nested, .. } => {
            partial_names(nested, out);
        },
        Ast::NegativeIteration { nested, .. } => {
            partial_names(nested, out);
        },
        Ast::Conditional { nested, .. } => {
            partial_names(nested, out);
        },
        Ast::NegativeConditional { nested, .. } => {
            partial_names(nested, out);
        },
        Ast::Scope { nested, .. } => {
            partial_names(nested, out);
        },
        Ast::PartialInclude { partial_name, .. } => {
            let name = partial_name.clone();
            let ghost prev = out@;
            out.push(name);
            assert(out@.map_values(|s: String| s@) =~= before + seq![partial_name@]);
        },
        _ => {
            assert(before + Seq::<Seq<char>>::empty() =~= before);
        },
    }
}

impl PartialEq for Ast {
    fn eq(&self, other: &Ast) -> (r: bool) {
        self.same(other)
    }
}

impl vstd::std_specs::cmp::PartialEqSpecImpl for Ast {
    open spec fn obeys_eq_spec() -> bool {
        true
    }

    open spec fn eq_spec(&self, other: &Ast) -> bool {
        self@ == other@
    }
}

impl Eq for Ast {
}

} // verus!
