use vstd::prelude::*;
use crate::span::Span;

verus! {

/// A secondary span of a diagnostic, with its own message.
pub struct Label {
    pub span: Span,
    pub message: String,
}

/// A problem found in the source: a primary message and span, and ordered
/// secondary labels.
pub struct Diagnostic {
    pub message: String,
    pub span: Span,
    pub labels: Vec<Label>,
}

/// `b` is `a` with zero or more diagnostics appended.
pub open spec fn extends(a: Seq<Diagnostic>, b: Seq<Diagnostic>) -> bool {
    a.len() <= b.len() && b.subrange(0, a.len() as int) == a
}

pub proof fn lemma_extends_trans(a: Seq<Diagnostic>, b: Seq<Diagnostic>, c: Seq<Diagnostic>)
    requires
        extends(a, b),
        extends(b, c),
    ensures
        extends(a, c),
{
    assert(c.subrange(0, a.len() as int) =~= c.subrange(0, b.len() as int).subrange(0, a.len() as int));
}

/// What a diagnostic says: its message, its primary span and its labels.
pub type DiagView = (Seq<char>, Span, Seq<(Span, Seq<char>)>);

/// What `d` says.
pub open spec fn dview(d: Diagnostic) -> DiagView {
    (d.message@, d.span, d.labels@.map_values(|l: Label| (l.span, l.message@)))
}

/// What each diagnostic of `ds` says, in order.
pub open spec fn dviews(ds: Seq<Diagnostic>) -> Seq<DiagView> {
    ds.map_values(|d: Diagnostic| dview(d))
}

/// `b` is `a` with diagnostics saying `added` appended.
pub open spec fn appended(a: Seq<Diagnostic>, b: Seq<Diagnostic>, added: Seq<DiagView>) -> bool {
    extends(a, b) && dviews(b) == dviews(a) + added
}

pub proof fn lemma_appended_trans(a: Seq<Diagnostic>, b: Seq<Diagnostic>, c: Seq<Diagnostic>, x: Seq<DiagView>, y: Seq<DiagView>)
    requires
        appended(a, b, x),
        appended(b, c, y),
    ensures
        appended(a, c, x + y),
{
    lemma_extends_trans(a, b, c);
    assert(dviews(a) + x + y =~= dviews(a) + (x + y));
}

pub proof fn lemma_appended_none(a: Seq<Diagnostic>)
    ensures
        appended(a, a, Seq::empty()),
{
    assert(a.subrange(0, a.len() as int) =~= a);
    assert(dviews(a) + Seq::<DiagView>::empty() =~= dviews(a));
}

pub proof fn lemma_appended_push(a: Seq<Diagnostic>, d: Diagnostic)
    ensures
        appended(a, a.push(d), seq![dview(d)]),
{
    assert(a.push(d).subrange(0, a.len() as int) =~= a);
    assert(dviews(a.push(d)) =~= dviews(a) + seq![dview(d)]);
}

/// Two label lists say the same thing.
pub open spec fn same_labels(a: Seq<Label>, b: Seq<Label>) -> bool {
    &&& a.len() == b.len()
    &&& forall|i: int| 0 <= i < a.len() ==> (#[trigger] a[i]).span == b[i].span && a[i].message@ == b[i].message@
}

/// Two diagnostics say the same thing.
pub open spec fn same_diag(a: Diagnostic, b: Diagnostic) -> bool {
    a.message@ == b.message@ && a.span == b.span && same_labels(a.labels@, b.labels@)
}

/// Two diagnostic lists say the same things in the same order.
pub open spec fn same_diags(a: Seq<Diagnostic>, b: Seq<Diagnostic>) -> bool {
    &&& a.len() == b.len()
    &&& forall|i: int| 0 <= i < a.len() ==> same_diag(#[trigger] a[i], b[i])
}

/// Whether two diagnostic lists say the same things in the same order.
pub fn diags_equal(a: &Vec<Diagnostic>, b: &Vec<Diagnostic>) -> (r: bool)
    ensures
        r == same_diags(a@, b@),
{
    if a.len() != b.len() {
        return false;
    }
    let mut i: usize = 0;
    while i < a.len()
        invariant
            a@.len() == b@.len(),
            i <= a@.len(),
            forall|k: int| 0 <= k < i ==> same_diag(#[trigger] a@[k], b@[k]),
        decreases a@.len() - i,
    {
        if !a[i].same_as(&b[i]) {
            return false;
        }
        i += 1;
    }
    true
}

/// A copy of each diagnostic of `a`, in order.
pub fn copy_diags(a: &Vec<Diagnostic>) -> (r: Vec<Diagnostic>)
    ensures
        same_diags(r@, a@),
{
    let mut r: Vec<Diagnostic> = Vec::new();
    let mut i: usize = 0;
    while i < a.len()
        invariant
            i <= a@.len(),
            r@.len() == i,
            forall|k: int| 0 <= k < i ==> same_diag(#[trigger] r@[k], a@[k]),
        decreases a@.len() - i,
    {
        r.push(a[i].copy());
        i += 1;
    }
    r
}

impl Diagnostic {
    /// Whether `other` says the same thing.
    pub fn same_as(&self, other: &Diagnostic) -> (r: bool)
        ensures
            r == same_diag(*self, *other),
    {
        if self.message != other.message || self.span != other.span || self.labels.len() != other.labels.len() {
            return false;
        }
        let mut i: usize = 0;
        while i < self.labels.len()
            invariant
                self.labels@.len() == other.labels@.len(),
                i <= self.labels@.len(),
                forall|k: int| 0 <= k < i ==> (#[trigger] self.labels@[k]).span == other.labels@[k].span
                    && self.labels@[k].message@ == other.labels@[k].message@,
            decreases self.labels@.len() - i,
        {
            if self.labels[i].span != other.labels[i].span || self.labels[i].message != other.labels[i].message {
                return false;
            }
            i += 1;
        }
        true
    }

    /// A copy that says the same thing.
    pub fn copy(&self) -> (r: Diagnostic)
        ensures
            same_diag(r, *self),
    {
        let mut labels: Vec<Label> = Vec::new();
        let mut i: usize = 0;
        while i < self.labels.len()
            invariant
                i <= self.labels@.len(),
                labels@.len() == i,
                forall|k: int| 0 <= k < i ==> (#[trigger] labels@[k]).span == self.labels@[k].span
                    && labels@[k].message@ == self.labels@[k].message@,
            decreases self.labels@.len() - i,
        {
            labels.push(Label { span: self.labels[i].span, message: self.labels[i].message.clone() });
            i += 1;
        }
        Diagnostic { message: self.message.clone(), span: self.span, labels }
    }

    /// A diagnostic with no labels.
    pub fn new(message: &str, span: Span) -> (r: Diagnostic)
        ensures
            r.message@ == message@,
            r.span == span,
            r.labels@.len() == 0,
            dview(r) == (message@, span, Seq::<(Span, Seq<char>)>::empty()),
    {
        let r = Diagnostic { message: message.to_owned(), span, labels: Vec::new() };
        assert(r.labels@.map_values(|l: Label| (l.span, l.message@)) =~= Seq::<(Span, Seq<char>)>::empty());
        r
    }

    /// Adds a secondary label.
    pub fn secondary_label(self, span: Span, message: &str) -> (r: Diagnostic)
        ensures
            r.message@ == self.message@,
            r.span == self.span,
            r.labels@.len() == self.labels@.len() + 1,
            r.labels@.last().span == span,
            r.labels@.last().message@ == message@,
            forall|i: int| 0 <= i < self.labels@.len() ==> #[trigger] r.labels@[i] == self.labels@[i],
            dview(r) == (dview(self).0, dview(self).1, dview(self).2.push((span, message@))),
    {
        let Diagnostic { message: m, span: s, mut labels } = self;
        labels.push(Label { span, message: message.to_owned() });
        let r = Diagnostic { message: m, span: s, labels };
        proof {
            let l0 = self.labels@.map_values(|l: Label| (l.span, l.message@));
            assert(r.labels@.map_values(|l: Label| (l.span, l.message@)) =~= l0.push((span, message@)));
        }
        r
    }
}

} // verus!
