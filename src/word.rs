use vstd::prelude::*;

verus! {

/// An interned identifier: a handle to a text held by an [`Interner`].
/// Handles are compared by index, never by text.
#[derive(Copy, Clone, Debug, PartialEq, Eq, Structural, Hash)]
pub struct Word(pub usize);

/// Deduplicates texts: each distinct text is stored once and named by its index.
pub struct Interner {
    texts: Vec<String>,
}

impl Interner {
    /// The texts in the order in which they were first interned.
    pub closed spec fn texts(&self) -> Seq<Seq<char>> {
        self.texts@.map_values(|s: String| s@)
    }

    /// No text is held twice.
    pub open spec fn wf(&self) -> bool {
        forall|i: int, j: int|
            0 <= i < self.texts().len() && 0 <= j < self.texts().len() && i != j
                ==> #[trigger] self.texts()[i] != #[trigger] self.texts()[j]
    }

    /// `w` names a text of this interner.
    pub open spec fn holds(&self, w: Word) -> bool {
        w.0 < self.texts().len()
    }

    /// The text that `w` names.
    pub open spec fn text_of(&self, w: Word) -> Seq<char> {
        self.texts()[w.0 as int]
    }

    pub fn new() -> (r: Interner)
        ensures
            r.wf(),
            r.texts() == Seq::<Seq<char>>::empty(),
    {
        let r = Interner { texts: Vec::new() };
        assert(r.texts() =~= Seq::<Seq<char>>::empty());
        r
    }

    /// The number of distinct texts held.
    pub fn len(&self) -> (r: usize)
        ensures
            r == self.texts().len(),
    {
        self.texts.len()
    }

    /// Returns the handle of `text`, adding it if it is new. Equal texts always
    /// get the same handle.
    pub fn intern(&mut self, text: String) -> (r: Word)
        requires
            old(self).wf(),
        ensures
            final(self).wf(),
            final(self).holds(r),
            final(self).text_of(r) == text@,
            old(self).texts().contains(text@) ==> final(self).texts() == old(self).texts(),
            !old(self).texts().contains(text@) ==> final(self).texts() == old(self).texts().push(text@),
    {
        let n = self.texts.len();
        let mut i: usize = 0;
        while i < n
            invariant
                n == self.texts@.len(),
                i <= n,
                self.wf(),
                self.texts() == old(self).texts(),
                forall|k: int| 0 <= k < i ==> self.texts()[k] != text@,
            decreases n - i,
        {
            if self.texts[i] == text {
                return Word(i);
            }
            i += 1;
        }
        assert(!self.texts().contains(text@));
        let ghost prev = self.texts();
        self.texts.push(text);
        assert(self.texts() =~= prev.push(text@));
        Word(n)
    }

    /// An interner with the same texts at the same handles.
    pub fn copy(&self) -> (r: Interner)
        ensures
            r.texts() == self.texts(),
    {
        let mut texts: Vec<String> = Vec::new();
        let mut i: usize = 0;
        while i < self.texts.len()
            invariant
                i <= self.texts@.len(),
                texts@.len() == i,
                forall|k: int| 0 <= k < i ==> texts@[k] == self.texts@[k],
            decreases self.texts@.len() - i,
        {
            texts.push(self.texts[i].clone());
            i += 1;
        }
        let r = Interner { texts };
        assert(r.texts() =~= self.texts());
        r
    }

    /// The text that `w` names.
    pub fn resolve(&self, w: Word) -> (r: &String)
        requires
            self.holds(w),
        ensures
            r@ == self.text_of(w),
    {
        &self.texts[w.0]
    }

    /// Equal texts are interned to equal handles, and distinct texts to distinct ones.
    pub proof fn lemma_handle_is_text(&self, a: Word, b: Word)
        requires
            self.wf(),
            self.holds(a),
            self.holds(b),
        ensures
            (a == b) <==> (self.text_of(a) == self.text_of(b)),
    {
    }
}

} // verus!
