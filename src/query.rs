use vstd::prelude::*;
use crate::diagnostic::{dviews, DiagView, Label, copy_diags, diags_equal, same_diag, same_diags, Diagnostic};
use crate::lexer::{lemma_file_covers_grow, lex, words_grow, LexedFile};
use crate::parser::{file_items, iviews, starts_with_item, Keywords, CodeParser};
use crate::syntax::{copy_items, items_equal, same_item, same_items, Item};
use crate::token::{text_width, TokenTree};
use crate::word::{Interner, Word};

verus! {

/// A memoized result of one computation, with the revision at which it last
/// changed, the revision at which it was last found current, and how many times
/// its body has run.
pub struct Node<T> {
    pub value: T,
    pub changed_at: u64,
    pub verified_at: u64,
    pub executions: u64,
}

impl<T> Node<T> {
    pub open spec fn ok(&self, rev: u64) -> bool {
        &&& self.changed_at <= self.verified_at <= rev
        &&& 1 <= self.executions <= self.verified_at
    }
}

/// What parsing one file gives: its items and the diagnostics raised on the way.
pub struct Parsed {
    pub items: Vec<Item>,
    pub diagnostics: Vec<Diagnostic>,
}

/// The diagnostics are ordered by the start of their primary span.
pub open spec fn sorted_by_start(d: Seq<Diagnostic>) -> bool {
    forall|i: int, j: int| 0 <= i < j < d.len() ==> (#[trigger] d[i]).span.start.value() <= (#[trigger] d[j]).span.start.value()
}

/// A copy of `d` ordered by the start of each primary span; diagnostics that
/// start at the same place keep their order.
pub fn sort_by_start(d: &Vec<Diagnostic>) -> (r: Vec<Diagnostic>)
    ensures
        sorted_by_start(r@),
        reordering_of(r@, d@),
{
    let mut r: Vec<Diagnostic> = Vec::new();
    let mut i: usize = 0;
    let ghost mut perm: Seq<int> = Seq::empty();
    while i < d.len()
        invariant
            i <= d@.len(),
            r@.len() == i,
            sorted_by_start(r@),
            perm.len() == i,
            forall|k: int| 0 <= k < i ==> 0 <= #[trigger] perm[k] < i && same_diag(r@[k], d@[perm[k]]),
            forall|a: int, b: int| 0 <= a < b < i ==> #[trigger] perm[a] != #[trigger] perm[b],
        decreases d@.len() - i,
    {
        let x = d[i].copy();
        let key = x.span.start.0;
        let mut p: usize = 0;
        while p < r.len() && r[p].span.start.0 <= key
            invariant
                p <= r@.len(),
                forall|k: int| 0 <= k < p ==> (#[trigger] r@[k]).span.start.value() <= key,
            decreases r@.len() - p,
        {
            p += 1;
        }
        let ghost before = r@;
        let ghost xi = i as int;
        r.insert(p, x);
        let ghost old_perm = perm;
        proof { perm = perm.insert(p as int, xi); }
        assert forall|k: int| 0 <= k < i + 1 implies 0 <= #[trigger] perm[k] < i + 1 && same_diag(r@[k], d@[perm[k]]) by {
            if k < p {
                assert(r@[k] == before[k] && perm[k] == old_perm[k]);
            } else if k == p {
                assert(same_diag(r@[k], d@[xi]));
            } else {
                assert(r@[k] == before[k - 1] && perm[k] == old_perm[k - 1]);
            }
        }
        assert forall|a: int, b: int| 0 <= a < b < i + 1 implies #[trigger] perm[a] != #[trigger] perm[b] by {
            if a < p && b < p {
                assert(old_perm[a] != old_perm[b]);
            } else if a < p && b > p {
                assert(old_perm[a] != old_perm[b - 1]);
            } else if a > p {
                assert(old_perm[a - 1] != old_perm[b - 1]);
            } else if a == p {
                assert(old_perm[b - 1] < xi);
            } else {
                assert(old_perm[a] < xi);
            }
        }
        assert forall|a: int, b: int| 0 <= a < b < r@.len()
            implies (#[trigger] r@[a]).span.start.value() <= (#[trigger] r@[b]).span.start.value() by {
            if a < p && b == p {
            } else if a == p && b > p {
                assert(r@[b] == before[b - 1]);
                assert(before[p as int].span.start.value() > key || p == before.len());
                if p < before.len() {
                    assert(before[p as int].span.start.value() <= before[b - 1].span.start.value() || b - 1 == p);
                }
            } else if a < p && b > p {
                assert(r@[b] == before[b - 1]);
            } else if a > p {
                assert(r@[a] == before[a - 1]);
                assert(r@[b] == before[b - 1]);
            }
        }
        i += 1;
    }
    assert(is_permutation(perm, d@.len() as int));
    r
}

/// `perm` maps `0 .. n` one to one onto itself.
pub open spec fn is_permutation(perm: Seq<int>, n: int) -> bool {
    &&& perm.len() == n
    &&& forall|k: int| 0 <= k < n ==> 0 <= #[trigger] perm[k] < n
    &&& forall|a: int, b: int| 0 <= a < b < n ==> #[trigger] perm[a] != #[trigger] perm[b]
}

/// `r` says what `d` says, each diagnostic exactly once, in some order.
pub open spec fn reordering_of(r: Seq<Diagnostic>, d: Seq<Diagnostic>) -> bool {
    &&& r.len() == d.len()
    &&& exists|perm: Seq<int>| is_permutation(perm, d.len() as int)
        && forall|k: int| 0 <= k < r.len() ==> same_diag(#[trigger] r[k], d[perm[k]])
}

proof fn lemma_reordering_same(a: Seq<Diagnostic>, b: Seq<Diagnostic>, d: Seq<Diagnostic>)
    requires
        same_diags(b, a) || same_diags(a, b),
        reordering_of(b, d),
    ensures
        reordering_of(a, d),
{
    let perm = choose|perm: Seq<int>| is_permutation(perm, d.len() as int)
        && forall|k: int| 0 <= k < b.len() ==> same_diag(#[trigger] b[k], d[perm[k]]);
    assert forall|k: int| 0 <= k < a.len() implies same_diag(#[trigger] a[k], d[perm[k]]) by {
        let (x, y, z) = (a[k], b[k], d[perm[k]]);
        assert(same_diag(y, x) || same_diag(x, y));
        assert(same_diag(y, z));
        assert forall|m: int| 0 <= m < x.labels@.len() implies (#[trigger] x.labels@[m]).span == z.labels@[m].span
            && x.labels@[m].message@ == z.labels@[m].message@ by {
            assert(y.labels@[m].span == x.labels@[m].span);
            assert(y.labels@[m].span == z.labels@[m].span);
        }
    }
}

/// One source file: its text, the revision at which the text last changed, and
/// the memoized results of lexing it, parsing it and checking it.
pub struct SourceFile {
    pub name: String,
    pub text: String,
    pub text_changed_at: u64,
    pub lex: Option<Node<LexedFile>>,
    pub parse: Option<Node<Parsed>>,
    pub check: Option<Node<Vec<Diagnostic>>>,
    /// The token table the parse result was computed from.
    pub parsed_from: Ghost<LexedFile>,
}

/// Two token tables hold the same tokens, spans and root tree.
pub open spec fn same_table(a: LexedFile, b: LexedFile) -> bool {
    a.tokens@ == b.tokens@ && a.spans@ == b.spans@ && a.root == b.root
}

proof fn lemma_same_items_views(a: Seq<Item>, b: Seq<Item>)
    requires
        same_items(a, b),
    ensures
        iviews(a) == iviews(b),
{
    assert forall|i: int| 0 <= i < a.len() implies #[trigger] iviews(a)[i] == iviews(b)[i] by {
        assert(same_item(a[i], b[i]));
    }
    assert(iviews(a) =~= iviews(b));
}

proof fn lemma_same_diags_views(a: Seq<Diagnostic>, b: Seq<Diagnostic>)
    requires
        same_diags(a, b),
    ensures
        dviews(a) == dviews(b),
{
    assert forall|i: int| 0 <= i < a.len() implies #[trigger] dviews(a)[i] == dviews(b)[i] by {
        let (x, y) = (a[i], b[i]);
        assert(same_diag(x, y));
        let lx = x.labels@.map_values(|l: Label| (l.span, l.message@));
        let ly = y.labels@.map_values(|l: Label| (l.span, l.message@));
        assert(lx =~= ly);
    }
    assert(dviews(a) =~= dviews(b));
}

/// The text can be lexed: its offsets fit in 32 bits and its tokens in memory.
pub open spec fn lexable(text: Seq<char>) -> bool {
    text_width(text) < u32::MAX && 2 * text_width(text) + 2 < usize::MAX
}

impl SourceFile {
    pub open spec fn wf(&self, rev: u64) -> bool {
        &&& 1 <= self.text_changed_at <= rev
        &&& lexable(self.text@)
        &&& self.lex matches Some(n) ==> n.ok(rev) && n.value.shape_ok()
        &&& self.parse matches Some(n) ==> n.ok(rev) && self.lex is Some
            && n.verified_at <= self.lex->0.verified_at
        &&& self.check matches Some(n) ==> n.ok(rev) && self.parse is Some
            && n.verified_at <= self.parse->0.verified_at && sorted_by_start(n.value@)
        &&& self.check_current()
    }

    /// When the parse result has not changed since the check result was last
    /// found current, the check result is its diagnostics, each once, reordered.
    pub open spec fn check_current(&self) -> bool {
        self.check is Some && self.parse is Some && self.parse->0.changed_at <= self.check->0.verified_at
            ==> reordering_of(self.check->0.value@, self.parse->0.value.diagnostics@)
    }

    /// When the lexing result has not changed since the parse result was last
    /// found current, a table that starts with an item that parses gives at
    /// least one item.
    pub open spec fn parse_current(&self, kw: Keywords) -> bool {
        self.lex is Some && self.parse is Some && self.lex->0.changed_at <= self.parse->0.verified_at
            ==> same_table(self.parsed_from@, self.lex->0.value)
                && iviews(self.parse->0.value.items@) == file_items(&self.parsed_from@, kw).0
                && dviews(self.parse->0.value.diagnostics@) == file_items(&self.parsed_from@, kw).1
    }

    /// When the text has not changed since the lexing result was last found
    /// current, that result is what the text lexes to.
    pub open spec fn lex_current(&self, words: &Interner) -> bool {
        self.lex is Some && self.text_changed_at <= self.lex->0.verified_at
            ==> self.lex->0.value.covers(self.text@, words)
    }

    /// Every result is current as of `rev`.
    pub open spec fn verified(&self, rev: u64) -> bool {
        &&& self.lex is Some && self.lex->0.verified_at == rev
        &&& self.parse is Some && self.parse->0.verified_at == rev
        &&& self.check is Some && self.check->0.verified_at == rev
    }

    /// Nothing a result was computed from has changed since it was last found
    /// current, so each can be confirmed without running its body.
    pub open spec fn unchanged_inputs(&self) -> bool {
        &&& self.lex is Some && self.parse is Some && self.check is Some
        &&& self.text_changed_at <= self.lex->0.verified_at
        &&& self.lex->0.changed_at <= self.parse->0.verified_at
        &&& self.parse->0.changed_at <= self.check->0.verified_at
    }

    /// `self` holds the results of `old`, only confirmed at a later revision.
    pub open spec fn confirmed_from(&self, old: &SourceFile) -> bool {
        &&& self.name@ == old.name@ && self.text@ == old.text@ && self.text_changed_at == old.text_changed_at
        &&& self.lex is Some && old.lex is Some && self.lex->0.value == old.lex->0.value
        &&& self.lex->0.changed_at == old.lex->0.changed_at && self.lex->0.executions == old.lex->0.executions
        &&& self.parse is Some && old.parse is Some && self.parse->0.value == old.parse->0.value
        &&& self.parse->0.changed_at == old.parse->0.changed_at && self.parse->0.executions == old.parse->0.executions
        &&& self.check is Some && old.check is Some && self.check->0.value == old.check->0.value
        &&& self.check->0.changed_at == old.check->0.changed_at && self.check->0.executions == old.check->0.executions
    }

    /// `self` holds what `other` holds: the same text and the same results,
    /// found current at the same revisions.
    pub open spec fn same_state(&self, other: &SourceFile) -> bool {
        &&& self.name@ == other.name@ && self.text@ == other.text@ && self.text_changed_at == other.text_changed_at
        &&& self.lex is Some <==> other.lex is Some
        &&& self.lex is Some ==> {
            let (a, b) = (self.lex->0, other.lex->0);
            &&& a.changed_at == b.changed_at && a.verified_at == b.verified_at && a.executions == b.executions
            &&& a.value.tokens@ == b.value.tokens@ && a.value.spans@ == b.value.spans@
            &&& a.value.root == b.value.root && a.value.ranges@ == b.value.ranges@
        }
        &&& self.parse is Some <==> other.parse is Some
        &&& self.parse is Some ==> {
            let (a, b) = (self.parse->0, other.parse->0);
            &&& a.changed_at == b.changed_at && a.verified_at == b.verified_at && a.executions == b.executions
            &&& same_items(a.value.items@, b.value.items@) && same_diags(a.value.diagnostics@, b.value.diagnostics@)
        }
        &&& self.check is Some <==> other.check is Some
        &&& self.check is Some ==> {
            let (a, b) = (self.check->0, other.check->0);
            &&& a.changed_at == b.changed_at && a.verified_at == b.verified_at && a.executions == b.executions
            &&& same_diags(a.value@, b.value@)
        }
    }

    /// A file in the same state.
    fn copy(&self, Ghost(rev): Ghost<u64>, Ghost(kw): Ghost<Keywords>) -> (r: SourceFile)
        requires
            self.wf(rev),
        ensures
            r.same_state(self),
            r.wf(rev),
            r.parsed_from@ == self.parsed_from@,
            self.parse_current(kw) ==> r.parse_current(kw),
    {
        let lex = match &self.lex {
            Some(n) => Some(Node { value: n.value.copy(), changed_at: n.changed_at, verified_at: n.verified_at, executions: n.executions }),
            None => None,
        };
        let parse = match &self.parse {
            Some(n) => Some(Node {
                value: Parsed { items: copy_items(&n.value.items), diagnostics: copy_diags(&n.value.diagnostics) },
                changed_at: n.changed_at,
                verified_at: n.verified_at,
                executions: n.executions,
            }),
            None => None,
        };
        let check = match &self.check {
            Some(n) => Some(Node { value: copy_diags(&n.value), changed_at: n.changed_at, verified_at: n.verified_at, executions: n.executions }),
            None => None,
        };
        let r = SourceFile { name: self.name.clone(), text: self.text.clone(), text_changed_at: self.text_changed_at, lex, parse, check,
            parsed_from: Ghost(self.parsed_from@) };
        proof {
            if r.parse is Some {
                lemma_same_items_views(r.parse->0.value.items@, self.parse->0.value.items@);
                lemma_same_diags_views(r.parse->0.value.diagnostics@, self.parse->0.value.diagnostics@);
            }
        }
        proof {
            if r.check is Some {
                let (a, b) = (r.check->0.value@, self.check->0.value@);
                assert forall|i: int, j: int| 0 <= i < j < a.len()
                    implies (#[trigger] a[i]).span.start.value() <= (#[trigger] a[j]).span.start.value() by {
                    assert(same_diag(a[i], b[i]) && same_diag(a[j], b[j]));
                }
            }
        }
        r
    }

    /// Brings the lexing result up to date with revision `rev`.
    fn pull_lex(&mut self, words: &mut Interner, rev: u64, Ghost(kw): Ghost<Keywords>)
        requires
            old(self).parse_current(kw),
            old(self).wf(rev),
            old(words).wf(),
            old(self).lex_current(old(words)),
        ensures
            final(self).lex_current(final(words)),
            final(self).parse_current(kw),
            final(self).wf(rev),
            final(words).wf(),
            words_grow(old(words), final(words)),
            final(self).lex is Some && final(self).lex->0.verified_at == rev,
            final(self).name == old(self).name && final(self).text == old(self).text,
            final(self).text_changed_at == old(self).text_changed_at,
            final(self).parse == old(self).parse && final(self).check == old(self).check,
            old(self).lex is Some && old(self).lex->0.verified_at == rev ==> *final(self) == *old(self)
                && *final(words) == *old(words),
            old(self).lex is Some && old(self).text_changed_at <= old(self).lex->0.verified_at ==> {
                &&& final(self).lex->0.value == old(self).lex->0.value
                &&& final(self).lex->0.changed_at == old(self).lex->0.changed_at
                &&& final(self).lex->0.executions == old(self).lex->0.executions
            },
    {
        let prior = self.lex.take();
        match prior {
            Some(n) => {
                if n.verified_at == rev {
                    self.lex = Some(n);
                    return;
                }
                if self.text_changed_at <= n.verified_at {
                    self.lex = Some(Node { value: n.value, changed_at: n.changed_at, verified_at: rev, executions: n.executions });
                    return;
                }
                let fresh = lex(self.text.as_str(), words);
                if fresh.same_as(&n.value) {
                    self.lex = Some(Node { value: fresh, changed_at: n.changed_at, verified_at: rev, executions: n.executions + 1 });
                } else {
                    self.lex = Some(Node { value: fresh, changed_at: rev, verified_at: rev, executions: n.executions + 1 });
                }
            },
            None => {
                let fresh = lex(self.text.as_str(), words);
                self.lex = Some(Node { value: fresh, changed_at: rev, verified_at: rev, executions: 1 });
            },
        }
    }

    /// Brings the parsing result up to date with revision `rev`.
    fn pull_parse(&mut self, words: &mut Interner, kw: Keywords, rev: u64)
        requires
            old(self).parse_current(kw),
            old(self).wf(rev),
            kw.distinct(),
            old(words).wf(),
            old(self).lex_current(old(words)),
        ensures
            final(self).lex_current(final(words)),
            final(self).parse_current(kw),
            final(self).wf(rev),
            final(words).wf(),
            words_grow(old(words), final(words)),
            final(self).lex->0.verified_at == rev,
            final(self).parse is Some && final(self).parse->0.verified_at == rev,
            final(self).name == old(self).name && final(self).text == old(self).text,
            final(self).text_changed_at == old(self).text_changed_at,
            final(self).check == old(self).check,
            old(self).parse is Some && old(self).parse->0.verified_at == rev ==> *final(self) == *old(self)
                && *final(words) == *old(words),
            old(self).parse is Some && old(self).text_changed_at <= old(self).lex->0.verified_at
                && old(self).lex->0.changed_at <= old(self).parse->0.verified_at ==> {
                &&& final(self).lex->0.value == old(self).lex->0.value
                &&& final(self).lex->0.changed_at == old(self).lex->0.changed_at
                &&& final(self).lex->0.executions == old(self).lex->0.executions
                &&& final(self).parse->0.value == old(self).parse->0.value
                &&& final(self).parse->0.changed_at == old(self).parse->0.changed_at
                &&& final(self).parse->0.executions == old(self).parse->0.executions
            },
    {
        if let Some(n) = &self.parse {
            if n.verified_at == rev {
                return;
            }
        }
        self.pull_lex(words, rev, Ghost(kw));
        let lex_changed = self.lex.as_ref().unwrap().changed_at;
        let prior = self.parse.take();
        match prior {
            Some(n) => {
                if lex_changed <= n.verified_at {
                    self.parse = Some(Node { value: n.value, changed_at: n.changed_at, verified_at: rev, executions: n.executions });
                    return;
                }
                let fresh = parse_lexed(&self.lex.as_ref().unwrap().value, kw);
                self.parsed_from = Ghost(self.lex->0.value);
                if items_equal(&fresh.items, &n.value.items) && diags_equal(&fresh.diagnostics, &n.value.diagnostics) {
                    proof {
                        lemma_same_items_views(fresh.items@, n.value.items@);
                        lemma_same_diags_views(fresh.diagnostics@, n.value.diagnostics@);
                    }
                    self.parse = Some(Node { value: n.value, changed_at: n.changed_at, verified_at: rev, executions: n.executions + 1 });
                } else {
                    self.parse = Some(Node { value: fresh, changed_at: rev, verified_at: rev, executions: n.executions + 1 });
                }
            },
            None => {
                let fresh = parse_lexed(&self.lex.as_ref().unwrap().value, kw);
                self.parsed_from = Ghost(self.lex->0.value);
                self.parse = Some(Node { value: fresh, changed_at: rev, verified_at: rev, executions: 1 });
            },
        }
    }

    /// Brings the checking result up to date with revision `rev`.
    #[verifier::rlimit(50)]
    fn pull_check(&mut self, words: &mut Interner, kw: Keywords, rev: u64)
        requires
            old(self).parse_current(kw),
            old(self).wf(rev),
            kw.distinct(),
            old(words).wf(),
            old(self).lex_current(old(words)),
        ensures
            final(self).lex_current(final(words)),
            final(self).parse_current(kw),
            final(self).wf(rev),
            final(words).wf(),
            words_grow(old(words), final(words)),
            final(self).verified(rev),
            final(self).unchanged_inputs(),
            final(self).name == old(self).name && final(self).text == old(self).text,
            final(self).text_changed_at == old(self).text_changed_at,
            old(self).check is Some && old(self).check->0.verified_at == rev ==> *final(self) == *old(self)
                && *final(words) == *old(words),
            old(self).unchanged_inputs() ==> final(self).confirmed_from(old(self)),
    {
        if let Some(n) = &self.check {
            if n.verified_at == rev {
                return;
            }
        }
        self.pull_parse(words, kw, rev);
        let parse_changed = self.parse.as_ref().unwrap().changed_at;
        let prior = self.check.take();
        match prior {
            Some(n) => {
                if parse_changed <= n.verified_at {
                    self.check = Some(Node { value: n.value, changed_at: n.changed_at, verified_at: rev, executions: n.executions });
                    return;
                }
                let fresh = sort_by_start(&self.parse.as_ref().unwrap().value.diagnostics);
                if diags_equal(&fresh, &n.value) {
                    proof { lemma_reordering_same(n.value@, fresh@, self.parse->0.value.diagnostics@); }
                    self.check = Some(Node { value: n.value, changed_at: n.changed_at, verified_at: rev, executions: n.executions + 1 });
                } else {
                    self.check = Some(Node { value: fresh, changed_at: rev, verified_at: rev, executions: n.executions + 1 });
                }
            },
            None => {
                let fresh = sort_by_start(&self.parse.as_ref().unwrap().value.diagnostics);
                self.check = Some(Node { value: fresh, changed_at: rev, verified_at: rev, executions: 1 });
            },
        }
    }
}

/// Parses every item of a lexed file, collecting the diagnostics.
pub fn parse_lexed(file: &LexedFile, kw: Keywords) -> (r: Parsed)
    requires
        file.shape_ok(),
        kw.distinct(),
    ensures
        forall|i: int| 0 <= i < r.items@.len() ==> (#[trigger] r.items@[i]).spec_span().wf(),
        forall|i: int, j: int| 0 <= i < j < r.items@.len()
            ==> (#[trigger] r.items@[i]).spec_span().end.value() <= (#[trigger] r.items@[j]).spec_span().start.value(),
        file.tokens@.len() == 0 ==> r.items@.len() == 0 && r.diagnostics@.len() == 0,
        starts_with_item(file, kw) ==> r.items@.len() >= 1,
        iviews(r.items@) == file_items(file, kw).0,
        dviews(r.diagnostics@) == file_items(file, kw).1,
{
    let mut diagnostics: Vec<Diagnostic> = Vec::new();
    let mut parser = CodeParser::new(file, kw);
    let ghost start = parser;
    proof {
        crate::parser::lemma_skip_ws_bounds(file.tokens@, 0, file.tokens@.len() as int);
        assert(dviews(Seq::<Diagnostic>::empty()) =~= Seq::<DiagView>::empty());
    }
    let items = parser.parse_items(&mut diagnostics);
    proof {
        let sp = start.items_spec(false);
        assert(dviews(diagnostics@) == Seq::<DiagView>::empty() + sp.2);
        assert(Seq::<DiagView>::empty() + sp.2 =~= sp.2);
        assert(file_items(file, kw) == (sp.0, sp.2)) by {
            reveal(file_items);
        }
    }
    Parsed { items, diagnostics }
}

/// The incremental engine: source texts by file name, the interner shared by
/// everything parsed, a revision counter bumped once per edit, and the memoized
/// results of each file. Results are computed when pulled and confirmed or
/// recomputed on the next pull after an edit, never eagerly.
pub struct Db {
    words: Interner,
    kw: Keywords,
    revision: u64,
    files: Vec<SourceFile>,
}

impl Db {
    pub closed spec fn wf(&self) -> bool {
        &&& self.words.wf()
        &&& self.kw.distinct()
        &&& forall|i: int| 0 <= i < self.files@.len() ==> (#[trigger] self.files@[i]).wf(self.revision)
        &&& forall|i: int| 0 <= i < self.files@.len() ==> (#[trigger] self.files@[i]).lex_current(&self.words)
        &&& forall|i: int| 0 <= i < self.files@.len() ==> (#[trigger] self.files@[i]).parse_current(self.kw)
        &&& forall|i: int, j: int| 0 <= i < j < self.files@.len()
            ==> (#[trigger] self.files@[i]).name@ != (#[trigger] self.files@[j]).name@
    }

    /// The interner shared by the database's files.
    pub closed spec fn spec_words(&self) -> Interner {
        self.words
    }

    /// The keywords the database's files are parsed with.
    pub closed spec fn spec_kw(&self) -> Keywords {
        self.kw
    }

    /// The revision: how many edits have been made.
    pub closed spec fn spec_revision(&self) -> u64 {
        self.revision
    }

    pub closed spec fn has_file(&self, name: Seq<char>) -> bool {
        exists|i: int| 0 <= i < self.files@.len() && (#[trigger] self.files@[i]).name@ == name
    }

    /// The state of the file named `name`.
    pub closed spec fn file(&self, name: Seq<char>) -> SourceFile {
        self.files@[choose|i: int| 0 <= i < self.files@.len() && (#[trigger] self.files@[i]).name@ == name]
    }

    /// The text of the file named `name`.
    pub closed spec fn source_text(&self, name: Seq<char>) -> Option<Seq<char>> {
        if self.has_file(name) {
            Some(self.file(name).text@)
        } else {
            None
        }
    }

    /// Every result for the file is current.
    pub closed spec fn up_to_date(&self, name: Seq<char>) -> bool {
        self.has_file(name) && self.file(name).verified(self.revision)
    }

    /// Nothing the file's results were computed from has changed since they were
    /// last found current.
    pub closed spec fn reusable(&self, name: Seq<char>) -> bool {
        self.has_file(name) && self.file(name).unchanged_inputs()
    }

    /// How many times the lexing, parsing and checking bodies have run for the file.
    pub closed spec fn spec_executions(&self, name: Seq<char>) -> (u64, u64, u64) {
        let f = self.file(name);
        (f.lex->0.executions, f.parse->0.executions, f.check->0.executions)
    }

    /// The memoized diagnostics of the file, with the revision at which they last changed.
    pub closed spec fn checked(&self, name: Seq<char>) -> (Seq<Diagnostic>, u64) {
        (self.file(name).check->0.value@, self.file(name).check->0.changed_at)
    }

    proof fn lemma_file_at(&self, i: int)
        requires
            self.wf(),
            0 <= i < self.files@.len(),
        ensures
            self.has_file(self.files@[i].name@),
            self.file(self.files@[i].name@) == self.files@[i],
    {
        let name = self.files@[i].name@;
        let j = choose|j: int| 0 <= j < self.files@.len() && (#[trigger] self.files@[j]).name@ == name;
        if j != i {
            if i < j {
                assert(self.files@[i].name@ != self.files@[j].name@);
            } else {
                assert(self.files@[j].name@ != self.files@[i].name@);
            }
        }
    }

    pub fn new() -> (r: Db)
        ensures
            r.wf(),
            r.spec_revision() == 0,
            forall|name: Seq<char>| !r.has_file(name),
    {
        let mut words = Interner::new();
        let kw = Keywords::new(&mut words);
        Db { words, kw, revision: 0, files: Vec::new() }
    }

    /// An independent database holding what this one holds: the same texts and
    /// the same results at the same revision. Pulls on either leave the other
    /// as it is.
    pub fn snapshot(&self) -> (r: Db)
        requires
            self.wf(),
        ensures
            r.wf(),
            r.spec_revision() == self.spec_revision(),
            forall|name: Seq<char>| #[trigger] r.has_file(name) == self.has_file(name),
            forall|name: Seq<char>| self.has_file(name) ==> (#[trigger] r.file(name)).same_state(&self.file(name)),
    {
        let mut files: Vec<SourceFile> = Vec::new();
        let mut i: usize = 0;
        while i < self.files.len()
            invariant
                self.wf(),
                i <= self.files@.len(),
                files@.len() == i,
                forall|k: int| 0 <= k < i ==> (#[trigger] files@[k]).same_state(&self.files@[k])
                    && files@[k].wf(self.revision) && files@[k].parse_current(self.kw),
            decreases self.files@.len() - i,
        {
            files.push(self.files[i].copy(Ghost(self.revision), Ghost(self.kw)));
            i += 1;
        }
        let r = Db { words: self.words.copy(), kw: self.kw, revision: self.revision, files };
        proof {
            assert forall|k: int, j: int| 0 <= k < j < r.files@.len()
                implies (#[trigger] r.files@[k]).name@ != (#[trigger] r.files@[j]).name@ by {
                assert(self.files@[k].name@ != self.files@[j].name@);
            }
            assert(r.wf());
            assert forall|name: Seq<char>| #[trigger] r.has_file(name) == self.has_file(name) by {
                if self.has_file(name) {
                    let k = choose|k: int| 0 <= k < self.files@.len() && (#[trigger] self.files@[k]).name@ == name;
                    assert(r.files@[k].name@ == name);
                }
                if r.has_file(name) {
                    let k = choose|k: int| 0 <= k < r.files@.len() && (#[trigger] r.files@[k]).name@ == name;
                    assert(self.files@[k].name@ == name);
                }
            }
            assert forall|name: Seq<char>| self.has_file(name) implies (#[trigger] r.file(name)).same_state(&self.file(name)) by {
                let k = choose|k: int| 0 <= k < self.files@.len() && (#[trigger] self.files@[k]).name@ == name;
                self.lemma_file_at(k);
                assert(r.files@[k].name@ == name);
                r.lemma_file_at(k);
            }
        }
        r
    }

    /// The current revision.
    pub fn revision(&self) -> (r: u64)
        ensures
            r == self.spec_revision(),
    {
        self.revision
    }

    /// The text that a word of this database's files stands for.
    pub fn word_text(&self, w: Word) -> (r: Option<&String>)
        ensures
            r is Some <==> self.spec_words().holds(w),
            r is Some ==> r->0@ == self.spec_words().text_of(w),
    {
        if w.0 < self.words.len() {
            Some(self.words.resolve(w))
        } else {
            None
        }
    }

    fn find(&self, name: &str) -> (r: Option<usize>)
        requires
            self.wf(),
        ensures
            r is Some <==> self.has_file(name@),
            r is Some ==> r->0 < self.files@.len() && self.files@[r->0 as int].name@ == name@
                && self.file(name@) == self.files@[r->0 as int],
    {
        let key = name.to_owned();
        let mut i: usize = 0;
        while i < self.files.len()
            invariant
                i <= self.files@.len(),
                key@ == name@,
                self.wf(),
                forall|k: int| 0 <= k < i ==> (#[trigger] self.files@[k]).name@ != name@,
            decreases self.files@.len() - i,
        {
            if self.files[i].name == key {
                proof { self.lemma_file_at(i as int); }
                return Some(i);
            }
            i += 1;
        }
        None
    }

    /// Sets the text of the file named `filename`, adding the file if it is new,
    /// and starts a new revision. Results already computed are kept, to be
    /// confirmed or recomputed when next pulled.
    pub fn update_file(&mut self, filename: &str, source_text: String)
        requires
            old(self).wf(),
            old(self).spec_revision() < u64::MAX,
            lexable(source_text@),
        ensures
            final(self).wf(),
            final(self).spec_revision() == old(self).spec_revision() + 1,
            final(self).source_text(filename@) == Some(source_text@),
            final(self).has_file(filename@),
            forall|name: Seq<char>| name != filename@ ==> #[trigger] final(self).source_text(name) == old(self).source_text(name),
            old(self).has_file(filename@) ==> final(self).file(filename@).lex == old(self).file(filename@).lex
                && final(self).file(filename@).parse == old(self).file(filename@).parse
                && final(self).file(filename@).check == old(self).file(filename@).check,
            forall|name: Seq<char>| name != filename@ ==> final(self).has_file(name) == old(self).has_file(name)
                && (old(self).has_file(name) ==> final(self).file(name) == old(self).file(name)),
    {
        let rev = self.revision + 1;
        self.revision = rev;
        let found = self.find(filename);
        let ghost files0 = self.files@;
        match found {
            Some(i) => {
                let mut f = self.files.remove(i);
                f.text = source_text;
                f.text_changed_at = rev;
                self.files.insert(i, f);
                assert(self.files@ =~= files0.update(i as int, f));
                proof {
                    assert forall|k: int| 0 <= k < self.files@.len() implies (#[trigger] self.files@[k]).wf(self.revision) by {
                        assert(files0[k].wf((rev - 1) as u64));
                    }
                    assert forall|k: int, j: int| 0 <= k < j < self.files@.len()
                        implies (#[trigger] self.files@[k]).name@ != (#[trigger] self.files@[j]).name@ by {
                        assert(files0[k].name@ != files0[j].name@);
                    }
                    self.lemma_file_at(i as int);
                    assert forall|name: Seq<char>| name != filename@ implies final(self).has_file(name) == old(self).has_file(name)
                        && (old(self).has_file(name) ==> final(self).file(name) == old(self).file(name)) by {
                        if old(self).has_file(name) {
                            let k = choose|k: int| 0 <= k < files0.len() && (#[trigger] files0[k]).name@ == name;
                            old(self).lemma_file_at(k);
                            self.lemma_file_at(k);
                        }
                        if self.has_file(name) {
                            let k = choose|k: int| 0 <= k < self.files@.len() && (#[trigger] self.files@[k]).name@ == name;
                            assert(files0[k].name@ == name);
                        }
                    }
                }
            },
            None => {
                let f = SourceFile {
                    name: filename.to_owned(),
                    text: source_text,
                    text_changed_at: rev,
                    lex: None,
                    parse: None,
                    check: None,
                    parsed_from: Ghost(vstd::pervasive::arbitrary()),
                };
                self.files.push(f);
                proof {
                    assert forall|k: int| 0 <= k < self.files@.len() implies (#[trigger] self.files@[k]).wf(self.revision) by {
                        if k < files0.len() {
                            assert(files0[k].wf((rev - 1) as u64));
                        }
                    }
                    assert forall|k: int, j: int| 0 <= k < j < self.files@.len()
                        implies (#[trigger] self.files@[k]).name@ != (#[trigger] self.files@[j]).name@ by {
                        if j < files0.len() {
                            assert(files0[k].name@ != files0[j].name@);
                        } else {
                            assert(files0[k].name@ != filename@);
                        }
                    }
                    self.lemma_file_at(files0.len() as int);
                    assert forall|name: Seq<char>| name != filename@ implies final(self).has_file(name) == old(self).has_file(name)
                        && (old(self).has_file(name) ==> final(self).file(name) == old(self).file(name)) by {
                        if old(self).has_file(name) {
                            let k = choose|k: int| 0 <= k < files0.len() && (#[trigger] files0[k]).name@ == name;
                            old(self).lemma_file_at(k);
                            self.lemma_file_at(k);
                        }
                        if self.has_file(name) {
                            let k = choose|k: int| 0 <= k < self.files@.len() && (#[trigger] self.files@[k]).name@ == name;
                            assert(k < files0.len());
                        }
                    }
                }
            },
        }
    }

    /// Lifts a change of the file at `i` to the database: the other files are
    /// untouched.
    proof fn lemma_update_one(&self, old: &Db, i: int)
        requires
            old.wf(),
            self.words.wf(),
            self.revision == old.revision,
            self.kw == old.kw,
            self.files@.len() == old.files@.len(),
            0 <= i < self.files@.len(),
            self.files@[i].wf(self.revision),
            self.files@[i].name@ == old.files@[i].name@,
            forall|k: int| 0 <= k < self.files@.len() && k != i ==> self.files@[k] == old.files@[k],
            words_grow(&old.words, &self.words),
            self.files@[i].lex_current(&self.words),
            self.files@[i].parse_current(self.kw),
        ensures
            self.wf(),
            self.file(self.files@[i].name@) == self.files@[i],
            forall|name: Seq<char>| name != self.files@[i].name@ ==> self.has_file(name) == old.has_file(name)
                && (old.has_file(name) ==> self.file(name) == old.file(name)),
    {
        assert forall|k: int, j: int| 0 <= k < j < self.files@.len()
            implies (#[trigger] self.files@[k]).name@ != (#[trigger] self.files@[j]).name@ by {
            assert(old.files@[k].name@ != old.files@[j].name@);
        }
        assert forall|k: int| 0 <= k < self.files@.len() implies (#[trigger] self.files@[k]).wf(self.revision) by {
            if k != i {
                assert(old.files@[k].wf(old.revision));
            }
        }
        assert forall|k: int| 0 <= k < self.files@.len() implies (#[trigger] self.files@[k]).lex_current(&self.words) by {
            if k != i {
                let f = old.files@[k];
                assert(f.lex_current(&old.words));
                if f.lex is Some && f.text_changed_at <= f.lex->0.verified_at {
                    lemma_file_covers_grow(&f.lex->0.value, f.text@, &old.words, &self.words);
                }
            }
        }
        self.lemma_file_at(i);
        assert forall|name: Seq<char>| name != self.files@[i].name@ implies self.has_file(name) == old.has_file(name)
            && (old.has_file(name) ==> self.file(name) == old.file(name)) by {
            if old.has_file(name) {
                let k = choose|k: int| 0 <= k < old.files@.len() && (#[trigger] old.files@[k]).name@ == name;
                old.lemma_file_at(k);
                self.lemma_file_at(k);
            }
            if self.has_file(name) {
                let k = choose|k: int| 0 <= k < self.files@.len() && (#[trigger] self.files@[k]).name@ == name;
                assert(old.files@[k].name@ == name);
            }
        }
    }

    /// Brings every result of the file at `i` up to date.
    #[verifier::rlimit(50)]
    fn pull_file(&mut self, i: usize, Ghost(name): Ghost<Seq<char>>)
        requires
            old(self).wf(),
            i < old(self).files@.len(),
            old(self).files@[i as int].name@ == name,
        ensures
            final(self).wf(),
            final(self).revision == old(self).revision,
            final(self).files@.len() == old(self).files@.len(),
            final(self).files@[i as int].name@ == name,
            final(self).has_file(name),
            old(self).file(name) == old(self).files@[i as int],
            final(self).file(name) == final(self).files@[i as int],
            final(self).files@[i as int].verified(final(self).revision),
            final(self).files@[i as int].unchanged_inputs(),
            final(self).files@[i as int].text@ == old(self).files@[i as int].text@,
            old(self).files@[i as int].check is Some && old(self).files@[i as int].check->0.verified_at == old(self).revision
                ==> *final(self) == *old(self),
            old(self).files@[i as int].unchanged_inputs() ==> final(self).files@[i as int].confirmed_from(&old(self).files@[i as int]),
            forall|other: Seq<char>| other != name ==> final(self).has_file(other) == old(self).has_file(other)
                && (old(self).has_file(other) ==> final(self).file(other) == old(self).file(other)),
    {
        let ghost prior = *self;
        proof { prior.lemma_file_at(i as int); }
        if let Some(c) = &self.files[i].check {
            if c.verified_at == self.revision {
                proof { self.lemma_update_one(&prior, i as int); }
                return;
            }
        }
        let mut f = self.files.remove(i);
        let kw = self.kw;
        f.pull_check(&mut self.words, kw, self.revision);
        self.files.insert(i, f);
        proof {
            assert(self.files@ =~= prior.files@.update(i as int, f));
            self.lemma_update_one(&prior, i as int);
        }
    }

    /// Checks the file named `filename` and returns its diagnostics, ordered by
    /// where they start. Only what is out of date is recomputed; pulling twice
    /// with no edit in between changes nothing and runs no computation again.
    pub fn diagnostics(&mut self, filename: &str) -> (r: Vec<Diagnostic>)
        requires
            old(self).wf(),
        ensures
            final(self).wf(),
            final(self).spec_revision() == old(self).spec_revision(),
            !old(self).has_file(filename@) ==> r@.len() == 0 && *final(self) == *old(self),
            final(self).has_file(filename@) == old(self).has_file(filename@),
            old(self).has_file(filename@) ==> {
                &&& final(self).up_to_date(filename@)
                &&& final(self).reusable(filename@)
                &&& final(self).source_text(filename@) == old(self).source_text(filename@)
                &&& same_diags(r@, final(self).checked(filename@).0)
                &&& sorted_by_start(r@)
                &&& reordering_of(r@, final(self).file(filename@).parse->0.value.diagnostics@)
                &&& same_table(final(self).file(filename@).parsed_from@, final(self).file(filename@).lex->0.value)
                &&& dviews(final(self).file(filename@).parse->0.value.diagnostics@)
                    == file_items(&final(self).file(filename@).parsed_from@, final(self).spec_kw()).1
                &&& final(self).file(filename@).lex->0.value.covers(final(self).file(filename@).text@, &final(self).spec_words())
            },
            old(self).up_to_date(filename@) ==> *final(self) == *old(self),
            old(self).reusable(filename@) ==> final(self).checked(filename@) == old(self).checked(filename@)
                && final(self).spec_executions(filename@) == old(self).spec_executions(filename@),
            forall|name: Seq<char>| name != filename@ ==> final(self).has_file(name) == old(self).has_file(name)
                && (old(self).has_file(name) ==> final(self).file(name) == old(self).file(name)),
    {
        match self.find(filename) {
            None => Vec::new(),
            Some(i) => {
                self.pull_file(i, Ghost(filename@));
                let r = copy_diags(&self.files[i].check.as_ref().unwrap().value);
                proof {
                    let f = self.files@[i as int];
                    assert(f.check_current());
                    lemma_reordering_same(r@, f.check->0.value@, f.parse->0.value.diagnostics@);
                    assert(f.lex_current(&self.words));
                    let c = self.files@[i as int].check->0.value@;
                    assert forall|a: int, b: int| 0 <= a < b < r@.len()
                        implies (#[trigger] r@[a]).span.start.value() <= (#[trigger] r@[b]).span.start.value() by {
                        assert(same_diag(r@[a], c[a]));
                        assert(same_diag(r@[b], c[b]));
                    }
                }
                r
            },
        }
    }

    /// Parses the file named `filename` and returns its items.
    pub fn items(&mut self, filename: &str) -> (r: Vec<Item>)
        requires
            old(self).wf(),
        ensures
            final(self).wf(),
            final(self).spec_revision() == old(self).spec_revision(),
            !old(self).has_file(filename@) ==> r@.len() == 0 && *final(self) == *old(self),
            final(self).has_file(filename@) == old(self).has_file(filename@),
            old(self).has_file(filename@) ==> final(self).up_to_date(filename@)
                && same_items(r@, final(self).file(filename@).parse->0.value.items@)
                && final(self).file(filename@).lex->0.value.covers(final(self).file(filename@).text@, &final(self).spec_words())
                && same_table(final(self).file(filename@).parsed_from@, final(self).file(filename@).lex->0.value)
                && iviews(r@) == file_items(&final(self).file(filename@).parsed_from@, final(self).spec_kw()).0,
            old(self).up_to_date(filename@) ==> *final(self) == *old(self),
            old(self).reusable(filename@) ==> final(self).checked(filename@) == old(self).checked(filename@)
                && final(self).spec_executions(filename@) == old(self).spec_executions(filename@),
            forall|name: Seq<char>| name != filename@ ==> final(self).has_file(name) == old(self).has_file(name)
                && (old(self).has_file(name) ==> final(self).file(name) == old(self).file(name)),
    {
        match self.find(filename) {
            None => Vec::new(),
            Some(i) => {
                self.pull_file(i, Ghost(filename@));
                proof {
                    assert(self.files@[i as int].lex_current(&self.words));
                    assert(self.files@[i as int].parse_current(self.kw));
                }
                copy_items(&self.files[i].parse.as_ref().unwrap().value.items)
            },
        }
    }

    /// Lexes the file named `filename` and returns its root token tree, which
    /// covers every token of the file.
    pub fn root_tree(&mut self, filename: &str) -> (r: Option<TokenTree>)
        requires
            old(self).wf(),
        ensures
            final(self).wf(),
            final(self).spec_revision() == old(self).spec_revision(),
            r is Some <==> old(self).has_file(filename@),
            !old(self).has_file(filename@) ==> *final(self) == *old(self),
            final(self).has_file(filename@) == old(self).has_file(filename@),
            old(self).has_file(filename@) ==> final(self).up_to_date(filename@)
                && r == Some(final(self).file(filename@).lex->0.value.root)
                && r->0.start == 0 && r->0.len == final(self).file(filename@).lex->0.value.tokens@.len(),
            old(self).up_to_date(filename@) ==> *final(self) == *old(self),
            forall|name: Seq<char>| name != filename@ ==> final(self).has_file(name) == old(self).has_file(name)
                && (old(self).has_file(name) ==> final(self).file(name) == old(self).file(name)),
    {
        match self.find(filename) {
            None => None,
            Some(i) => {
                self.pull_file(i, Ghost(filename@));
                Some(self.files[i].lex.as_ref().unwrap().value.root)
            },
        }
    }

    /// How many times the lexing, parsing and checking bodies have run for the
    /// file named `filename`, once its results exist.
    pub fn executions(&self, filename: &str) -> (r: Option<(u64, u64, u64)>)
        requires
            self.wf(),
        ensures
            r is Some ==> self.has_file(filename@),
            self.up_to_date(filename@) ==> r == Some(self.spec_executions(filename@)),
    {
        match self.find(filename) {
            None => None,
            Some(i) => {
                let f = &self.files[i];
                match (&f.lex, &f.parse, &f.check) {
                    (Some(l), Some(p), Some(c)) => Some((l.executions, p.executions, c.executions)),
                    _ => None,
                }
            },
        }
    }

    /// The revision at which the diagnostics of the file named `filename` last
    /// changed, once they exist.
    pub fn check_changed_at(&self, filename: &str) -> (r: Option<u64>)
        requires
            self.wf(),
        ensures
            r is Some ==> self.has_file(filename@),
            self.up_to_date(filename@) ==> r == Some(self.checked(filename@).1),
    {
        match self.find(filename) {
            None => None,
            Some(i) => match &self.files[i].check {
                Some(c) => Some(c.changed_at),
                None => None,
            },
        }
    }
}

/// An edit of one file leaves another file's results reusable: the next pull of
/// that file's diagnostics confirms them, with the same value and the same
/// revision of last change, and runs none of its computations again.
pub proof fn lemma_edit_keeps_other_files(before: &Db, after: &Db, edited: Seq<char>, other: Seq<char>)
    requires
        before.reusable(other),
        other != edited,
        after.has_file(other) == before.has_file(other),
        before.has_file(other) ==> after.file(other) == before.file(other),
    ensures
        after.reusable(other),
        after.checked(other) == before.checked(other),
        after.spec_executions(other) == before.spec_executions(other),
{
}

/// A snapshot of a database whose results for a file are current holds alike
/// items and alike diagnostics for it, and they are current there too: pulling
/// them from either gives structurally identical results without recomputing.
pub proof fn lemma_snapshot_agrees(a: &Db, b: &Db, name: Seq<char>)
    requires
        a.up_to_date(name),
        b.spec_revision() == a.spec_revision(),
        b.has_file(name),
        b.file(name).same_state(&a.file(name)),
    ensures
        b.up_to_date(name),
        same_diags(b.checked(name).0, a.checked(name).0),
        same_items(b.file(name).parse->0.value.items@, a.file(name).parse->0.value.items@),
{
}

} // verus!
