use vstd::prelude::*;
use crate::span::Span;
use crate::token::TokenTree;
use crate::word::Word;

verus! {

/// An identifier as written, with its span.
#[derive(Copy, Clone, Debug, PartialEq, Eq, Structural, Hash)]
pub struct Name {
    pub word: Word,
    pub span: Span,
}

/// A permission keyword.
#[derive(Copy, Clone, Debug, PartialEq, Eq, Structural, Hash)]
pub enum Perm {
    My,
    Our,
    Leased,
    Shared,
}

/// A permission keyword as written, with its span.
#[derive(Copy, Clone, Debug, PartialEq, Eq, Structural, Hash)]
pub struct PermKw {
    pub perm: Perm,
    pub span: Span,
}

/// A parameter of a generic list `[...]`.
#[derive(Copy, Clone, Debug, PartialEq, Eq, Structural, Hash)]
pub enum GenericParameter {
    /// `T`
    Type(Name),
    /// `my U`
    Permission(PermKw, Name),
}

/// `atomic` or `async` before an item.
#[derive(Copy, Clone, Debug, PartialEq, Eq, Structural, Hash)]
pub enum EffectKeyword {
    Atomic(Span),
    Async(Span),
}

/// A parameter or field: `[atomic] name [: Type]`.
#[derive(Copy, Clone, Debug, PartialEq, Eq, Structural, Hash)]
pub struct LocalVariableDecl {
    pub atomic: Option<Span>,
    pub name: Name,
    pub ty: Option<Name>,
    pub span: Span,
}

impl LocalVariableDecl {
    /// The span is the union of the spans of the parts that are present.
    pub open spec fn span_is_union(self) -> bool {
        &&& self.span.start == (match self.atomic {
            Some(a) => a.start,
            None => self.name.span.start,
        })
        &&& self.span.end == (match self.ty {
            Some(t) => t.span.end,
            None => self.name.span.end,
        })
        &&& self.span.wf()
    }
}

/// `-> Type`: the span runs from the arrow to the type, or covers the arrow
/// alone when the type is missing.
#[derive(Copy, Clone, Debug, PartialEq, Eq, Structural, Hash)]
pub struct ReturnTy {
    pub ty: Option<Name>,
    pub span: Span,
}

/// `fn name[generics](params) -> Ret { body }`, with an optional effect keyword.
pub struct FnDecl {
    pub effect: Option<EffectKeyword>,
    pub name: Name,
    pub generics: Vec<GenericParameter>,
    pub params: Vec<LocalVariableDecl>,
    pub return_ty: Option<ReturnTy>,
    pub body: TokenTree,
    pub span: Span,
}

/// `class name[generics](fields)`.
pub struct Class {
    pub name: Name,
    pub generics: Vec<GenericParameter>,
    pub fields: Vec<LocalVariableDecl>,
    pub span: Span,
}

/// A top-level item of a file.
pub enum Item {
    Function(FnDecl),
    Class(Class),
}

/// Two items are alike in every part.
pub open spec fn same_item(a: Item, b: Item) -> bool {
    match (a, b) {
        (Item::Function(f), Item::Function(g)) => f.effect == g.effect && f.name == g.name
            && f.generics@ == g.generics@ && f.params@ == g.params@ && f.return_ty == g.return_ty
            && f.body == g.body && f.span == g.span,
        (Item::Class(c), Item::Class(d)) => c.name == d.name && c.generics@ == d.generics@
            && c.fields@ == d.fields@ && c.span == d.span,
        _ => false,
    }
}

/// Two item lists are alike item by item.
pub open spec fn same_items(a: Seq<Item>, b: Seq<Item>) -> bool {
    &&& a.len() == b.len()
    &&& forall|i: int| 0 <= i < a.len() ==> same_item(#[trigger] a[i], b[i])
}

pub fn copy_vec<T: Copy>(v: &Vec<T>) -> (r: Vec<T>)
    ensures
        r@ == v@,
{
    let mut r: Vec<T> = Vec::new();
    let mut i: usize = 0;
    while i < v.len()
        invariant
            i <= v@.len(),
            r@ == v@.subrange(0, i as int),
        decreases v@.len() - i,
    {
        r.push(v[i]);
        i += 1;
        assert(r@ =~= v@.subrange(0, i as int));
    }
    assert(r@ =~= v@);
    r
}

fn generics_equal(a: &Vec<GenericParameter>, b: &Vec<GenericParameter>) -> (r: bool)
    ensures
        r == (a@ == b@),
{
    if a.len() != b.len() {
        return false;
    }
    let mut i: usize = 0;
    while i < a.len()
        invariant
            a@.len() == b@.len(),
            i <= a@.len(),
            forall|k: int| 0 <= k < i ==> a@[k] == b@[k],
        decreases a@.len() - i,
    {
        if a[i] != b[i] {
            return false;
        }
        i += 1;
    }
    assert(a@ =~= b@);
    true
}

fn decls_equal(a: &Vec<LocalVariableDecl>, b: &Vec<LocalVariableDecl>) -> (r: bool)
    ensures
        r == (a@ == b@),
{
    if a.len() != b.len() {
        return false;
    }
    let mut i: usize = 0;
    while i < a.len()
        invariant
            a@.len() == b@.len(),
            i <= a@.len(),
            forall|k: int| 0 <= k < i ==> a@[k] == b@[k],
        decreases a@.len() - i,
    {
        if a[i] != b[i] {
            return false;
        }
        i += 1;
    }
    assert(a@ =~= b@);
    true
}

/// Whether two item lists are alike item by item.
pub fn items_equal(a: &Vec<Item>, b: &Vec<Item>) -> (r: bool)
    ensures
        r == same_items(a@, b@),
{
    if a.len() != b.len() {
        return false;
    }
    let mut i: usize = 0;
    while i < a.len()
        invariant
            a@.len() == b@.len(),
            i <= a@.len(),
            forall|k: int| 0 <= k < i ==> same_item(#[trigger] a@[k], b@[k]),
        decreases a@.len() - i,
    {
        if !a[i].same_as(&b[i]) {
            return false;
        }
        i += 1;
    }
    true
}

/// A copy of each item of `a`, in order.
pub fn copy_items(a: &Vec<Item>) -> (r: Vec<Item>)
    ensures
        same_items(r@, a@),
{
    let mut r: Vec<Item> = Vec::new();
    let mut i: usize = 0;
    while i < a.len()
        invariant
            i <= a@.len(),
            r@.len() == i,
            forall|k: int| 0 <= k < i ==> same_item(#[trigger] r@[k], a@[k]),
        decreases a@.len() - i,
    {
        r.push(a[i].copy());
        i += 1;
    }
    r
}

impl Item {
    /// Whether `other` is alike in every part.
    pub fn same_as(&self, other: &Item) -> (r: bool)
        ensures
            r == same_item(*self, *other),
    {
        match (self, other) {
            (Item::Function(f), Item::Function(g)) => f.effect == g.effect && f.name == g.name
                && generics_equal(&f.generics, &g.generics) && decls_equal(&f.params, &g.params)
                && f.return_ty == g.return_ty && f.body == g.body && f.span == g.span,
            (Item::Class(c), Item::Class(d)) => c.name == d.name && generics_equal(&c.generics, &d.generics)
                && decls_equal(&c.fields, &d.fields) && c.span == d.span,
            _ => false,
        }
    }

    /// A copy alike in every part.
    pub fn copy(&self) -> (r: Item)
        ensures
            same_item(r, *self),
    {
        match self {
            Item::Function(f) => Item::Function(FnDecl {
                effect: f.effect,
                name: f.name,
                generics: copy_vec(&f.generics),
                params: copy_vec(&f.params),
                return_ty: f.return_ty,
                body: f.body,
                span: f.span,
            }),
            Item::Class(c) => Item::Class(Class {
                name: c.name,
                generics: copy_vec(&c.generics),
                fields: copy_vec(&c.fields),
                span: c.span,
            }),
        }
    }

    pub open spec fn spec_span(&self) -> Span {
        match self {
            Item::Function(f) => f.span,
            Item::Class(c) => c.span,
        }
    }

    pub fn name(&self) -> (r: Name)
        ensures
            r == (match self {
                Item::Function(f) => f.name,
                Item::Class(c) => c.name,
            }),
    {
        match self {
            Item::Function(f) => f.name,
            Item::Class(c) => c.name,
        }
    }

    pub fn span(&self) -> (r: Span)
        ensures
            r == self.spec_span(),
    {
        match self {
            Item::Function(f) => f.span,
            Item::Class(c) => c.span,
        }
    }
}

} // verus!
