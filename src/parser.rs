use vstd::prelude::*;
use crate::diagnostic::{appended, dview, extends, lemma_appended_none, lemma_appended_push, lemma_appended_trans, lemma_extends_trans, Diagnostic, DiagView};
use crate::lexer::{spans_ordered, trees_balanced, LexedFile};
use crate::span::{Offset, Span};
use crate::syntax::{
    Class, EffectKeyword, ReturnTy, FnDecl, GenericParameter, Item, LocalVariableDecl, Name, Perm, PermKw,
};
use crate::token::{Token, TokenTree};
use crate::word::{Interner, Word};

verus! {

/// The interned keywords of the language.
#[derive(Copy, Clone, Debug, PartialEq, Eq, Structural, Hash)]
pub struct Keywords {
    pub fn_kw: Word,
    pub class_kw: Word,
    pub atomic_kw: Word,
    pub async_kw: Word,
    pub my_kw: Word,
    pub our_kw: Word,
    pub leased_kw: Word,
    pub shared_kw: Word,
}

impl Keywords {
    /// The item keywords differ from the effect keywords.
    pub open spec fn distinct(self) -> bool {
        self.fn_kw != self.atomic_kw && self.fn_kw != self.async_kw && self.fn_kw != self.class_kw
            && self.class_kw != self.atomic_kw && self.class_kw != self.async_kw
    }

    pub open spec fn contains(self, w: Word) -> bool {
        w == self.fn_kw || w == self.class_kw || w == self.atomic_kw || w == self.async_kw
            || w == self.my_kw || w == self.our_kw || w == self.leased_kw || w == self.shared_kw
    }

    /// Interns the keywords.
    pub fn new(words: &mut Interner) -> (r: Keywords)
        requires
            old(words).wf(),
        ensures
            final(words).wf(),
            final(words).text_of(r.fn_kw) == "fn"@,
            final(words).text_of(r.class_kw) == "class"@,
            final(words).text_of(r.atomic_kw) == "atomic"@,
            final(words).text_of(r.async_kw) == "async"@,
            final(words).text_of(r.my_kw) == "my"@,
            final(words).text_of(r.our_kw) == "our"@,
            final(words).text_of(r.leased_kw) == "leased"@,
            final(words).text_of(r.shared_kw) == "shared"@,
            old(words).texts().is_prefix_of(final(words).texts()),
            r.distinct(),
    {
        let ghost w0 = words.texts();
        let fn_kw = words.intern("fn".to_owned());
        let class_kw = words.intern("class".to_owned());
        let atomic_kw = words.intern("atomic".to_owned());
        let async_kw = words.intern("async".to_owned());
        let my_kw = words.intern("my".to_owned());
        let our_kw = words.intern("our".to_owned());
        let leased_kw = words.intern("leased".to_owned());
        let shared_kw = words.intern("shared".to_owned());
        proof {
            reveal_strlit("fn");
            reveal_strlit("class");
            reveal_strlit("atomic");
            reveal_strlit("async");
            assert("fn"@.len() == 2 && "atomic"@.len() == 6 && "async"@.len() == 5 && "class"@.len() == 5);
            assert("class"@[0] != "async"@[0]);
            assert("fn"@ != "atomic"@ && "fn"@ != "async"@ && "class"@ != "atomic"@ && "class"@ != "async"@ && "fn"@ != "class"@);
        }
        Keywords { fn_kw, class_kw, atomic_kw, async_kw, my_kw, our_kw, leased_kw, shared_kw }
    }

    fn is_keyword(&self, w: Word) -> (r: bool)
        ensures
            r == self.contains(w),
    {
        w == self.fn_kw || w == self.class_kw || w == self.atomic_kw || w == self.async_kw
            || w == self.my_kw || w == self.our_kw || w == self.leased_kw || w == self.shared_kw
    }
}

/// The first index at or after `pos`, and before `end`, that holds no whitespace;
/// `end` when there is none.
pub open spec fn skip_ws(toks: Seq<Token>, pos: int, end: int) -> int
    decreases end - pos,
{
    if pos >= end {
        end
    } else if toks[pos] is Whitespace {
        skip_ws(toks, pos + 1, end)
    } else {
        pos
    }
}

pub proof fn lemma_skip_ws_bounds(toks: Seq<Token>, pos: int, end: int)
    requires
        pos <= end,
    ensures
        pos <= skip_ws(toks, pos, end) <= end,
    decreases end - pos,
{
    if pos < end && toks[pos] is Whitespace {
        lemma_skip_ws_bounds(toks, pos + 1, end);
    }
}

/// The facts about a token table that parsing relies on.
#[verifier::opaque]
pub open spec fn file_shape(toks: Seq<Token>, spans: Seq<Span>) -> bool {
    &&& trees_balanced(toks)
    &&& toks.len() == spans.len()
    &&& forall|i: int| 0 <= i < spans.len() ==> (#[trigger] spans[i]).wf()
    &&& spans_ordered(toks, spans)
}

pub proof fn lemma_tree_facts(toks: Seq<Token>, spans: Seq<Span>, i: int)
    requires
        file_shape(toks, spans),
        0 <= i < toks.len(),
        toks[i] is Tree,
    ensures
        1 <= i,
        toks[i - 1] is Delimiter,
        toks[i]->Tree_0.start == i + 1,
        toks[i]->Tree_0.end() <= toks.len(),
        !toks[i]->Tree_0.open ==> toks[i]->Tree_0.end() < toks.len() && toks[toks[i]->Tree_0.end()] is Delimiter,
{
    reveal(file_shape);
}

pub proof fn lemma_span_order(toks: Seq<Token>, spans: Seq<Span>, i: int, j: int)
    requires
        file_shape(toks, spans),
        0 <= i < j < toks.len(),
        !(toks[i] is Tree),
        !(toks[j] is Tree),
    ensures
        spans[i].end.value() <= spans[j].start.value(),
        spans[i].wf(),
        spans[j].wf(),
{
    reveal(file_shape);
}

pub proof fn lemma_span_wf(toks: Seq<Token>, spans: Seq<Span>, i: int)
    requires
        file_shape(toks, spans),
        0 <= i < toks.len(),
    ensures
        spans[i].wf(),
        toks.len() == spans.len(),
{
    reveal(file_shape);
}

/// The items of a whole table and the diagnostics raised parsing them.
#[verifier::opaque]
pub open spec fn file_items(file: &LexedFile, kw: Keywords) -> (Seq<ItemView>, Seq<DiagView>) {
    let r = (CodeParser { file, kw, pos: 0, end: file.tokens@.len() as usize, last_end: Offset(0) }).items_spec(false);
    (r.0, r.2)
}

/// The table starts, whitespace aside, with an item that parses: a function
/// with no generic parameters and no return type, or a class.
pub open spec fn starts_with_item(file: &LexedFile, kw: Keywords) -> bool {
    (CodeParser { file, kw, pos: 0, end: file.tokens@.len() as usize, last_end: Offset(0) }).item_next()
}

/// What an item says: whether it is a function, its effect keyword, name,
/// generic parameters, parameters or fields, return type, body and span.
pub type ItemView = (bool, Option<EffectKeyword>, Name, Seq<GenericParameter>, Seq<LocalVariableDecl>,
    Option<ReturnTy>, Option<TokenTree>, Span);

/// What `item` says.
pub open spec fn iview(item: Item) -> ItemView {
    match item {
        Item::Function(f) => (true, f.effect, f.name, f.generics@, f.params@, f.return_ty, Some(f.body), f.span),
        Item::Class(c) => (false, None, c.name, c.generics@, c.fields@, None, None, c.span),
    }
}

/// What each item of `items` says, in order.
pub open spec fn iviews(items: Seq<Item>) -> Seq<ItemView> {
    items.map_values(|i: Item| iview(i))
}

/// A parameter with its span the union of its parts' spans.
pub open spec fn decl_of(atomic: Option<Span>, name: Name, ty: Option<Name>) -> LocalVariableDecl {
    LocalVariableDecl {
        atomic,
        name,
        ty,
        span: Span {
            start: match atomic { Some(a) => a.start, None => name.span.start },
            end: match ty { Some(t) => t.span.end, None => name.span.end },
        },
    }
}

/// A cursor over the tokens `pos .. end` of a file. It only moves forward;
/// `last_end` is where the last consumed token ended.
pub struct CodeParser<'a> {
    pub file: &'a LexedFile,
    pub kw: Keywords,
    pub pos: usize,
    pub end: usize,
    pub last_end: Offset,
}

impl<'a> CodeParser<'a> {
    pub open spec fn toks(&self) -> Seq<Token> {
        self.file.tokens@
    }

    pub open spec fn spans(&self) -> Seq<Span> {
        self.file.spans@
    }

    /// The index of the next token that is not whitespace.
    pub open spec fn next(&self) -> int {
        skip_ws(self.toks(), self.pos as int, self.end as int)
    }

    /// The next token is a name: an alphabetic word that is no keyword.
    pub open spec fn name_next(&self) -> bool {
        let k = self.next();
        &&& k < self.end
        &&& self.toks()[k] is Alphabetic
        &&& !self.kw.contains(self.toks()[k]->Alphabetic_0)
    }

    /// The next token is the keyword `w`.
    pub open spec fn keyword_next(&self, w: Word) -> bool {
        let k = self.next();
        k < self.end && self.toks()[k] == Token::Alphabetic(w)
    }

    /// The name that the token at `k` stands for.
    pub open spec fn name_at(&self, k: int) -> Name {
        Name { word: self.toks()[k]->Alphabetic_0, span: self.spans()[k] }
    }

    pub open spec fn wf(&self) -> bool {
        &&& file_shape(self.toks(), self.spans())
        &&& self.toks().len() == self.spans().len()
        &&& self.toks().len() <= usize::MAX
        &&& self.kw.distinct()
        &&& self.pos <= self.end <= self.toks().len()
        &&& forall|k: int| self.pos <= k < self.toks().len() && !(self.toks()[k] is Tree)
            ==> self.last_end.value() <= (#[trigger] self.spans()[k]).start.value()
    }

    /// `self` is `old` moved forward over its tokens.
    pub open spec fn advanced_from(&self, old: &CodeParser) -> bool {
        &&& self.file == old.file
        &&& self.kw == old.kw
        &&& self.end == old.end
        &&& old.pos <= self.pos
        &&& old.last_end.value() <= self.last_end.value()
    }

    /// A parser over all the tokens of `file`.
    pub fn new(file: &'a LexedFile, kw: Keywords) -> (r: CodeParser<'a>)
        requires
            file.shape_ok(),
            kw.distinct(),
        ensures
            r.wf(),
            r.file == file,
            r.kw == kw,
            r.pos == 0,
            r.end == file.tokens@.len(),
            r == (CodeParser { file, kw, pos: 0, end: file.tokens@.len() as usize, last_end: Offset(0) }),
    {
        proof { reveal(file_shape); }
        CodeParser { file, kw, pos: 0, end: file.tokens.len(), last_end: Offset(0) }
    }

    /// The parser over the contents of the tree token at `ti`.
    pub open spec fn sub_at(&self, ti: int) -> CodeParser<'a> {
        CodeParser {
            file: self.file,
            kw: self.kw,
            pos: (ti + 1) as usize,
            end: self.toks()[ti]->Tree_0.end() as usize,
            last_end: self.spans()[ti - 1].end,
        }
    }

    /// The tree token that follows the next token.
    pub open spec fn tree_after_next(&self) -> TokenTree {
        self.toks()[self.next() + 1]->Tree_0
    }

    /// The next tokens are the opening delimiter `open` and its tree.
    pub open spec fn delimited_next(&self, open: char) -> bool {
        let k = self.next();
        k + 1 < self.end && self.toks()[k] == Token::Delimiter(open) && self.toks()[k + 1] is Tree
    }

    /// Where the cursor stands after a delimited region whose tree is `t`: past
    /// the closing delimiter, or at the end when the tree stays open.
    pub open spec fn after_tree(&self, t: TokenTree) -> int {
        if !t.open && t.end() < self.end { t.end() + 1 } else { self.end as int }
    }

    /// The next tokens are a well-formed function with no generic parameters and
    /// no return type: `fn`, a name, a closed `(...)` and a `{...}`.
    pub open spec fn simple_fn_next(&self) -> bool {
        let k0 = self.next();
        let k1 = skip_ws(self.toks(), k0 + 1, self.end as int);
        let k2 = skip_ws(self.toks(), k1 + 1, self.end as int);
        let t = self.toks()[k2 + 1]->Tree_0;
        let k3 = skip_ws(self.toks(), t.end() + 1, self.end as int);
        &&& self.keyword_next(self.kw.fn_kw)
        &&& self.name_after(k0)
        &&& k2 + 1 < self.end && self.toks()[k2] == Token::Delimiter('(') && self.toks()[k2 + 1] is Tree
        &&& !t.open && t.end() < self.end
        &&& k3 + 1 < self.end && self.toks()[k3] == Token::Delimiter('{') && self.toks()[k3 + 1] is Tree
    }

    /// The next tokens start an item that parses: a well-formed function as
    /// above, or `class` and a name.
    pub open spec fn item_next(&self) -> bool {
        self.simple_fn_next() || (self.keyword_next(self.kw.class_kw) && self.name_after(self.next()))
    }

    /// A parser over the contents of the tree token at `tree_index`, sharing the file
    /// and keywords.
    fn sub_parser(&self, tree_index: usize) -> (r: CodeParser<'a>)
        requires
            self.wf(),
            tree_index < self.toks().len(),
            self.toks()[tree_index as int] is Tree,
        ensures
            r.wf(),
            r.file == self.file,
            r.kw == self.kw,
            r.pos == tree_index + 1,
            r.end == self.toks()[tree_index as int]->Tree_0.end(),
            r == self.sub_at(tree_index as int),
    {
        proof { lemma_tree_facts(self.toks(), self.spans(), tree_index as int); }
        let t = self.file.tokens[tree_index].tree().unwrap();
        let r = CodeParser { file: self.file, kw: self.kw, pos: t.start, end: t.start + t.len, last_end: self.file.spans[tree_index - 1].end };
        assert forall|k: int| r.pos <= k < r.toks().len() && !(r.toks()[k] is Tree)
            implies r.last_end.value() <= (#[trigger] r.spans()[k]).start.value() by {
            lemma_span_order(self.toks(), self.spans(), tree_index - 1, k);
        }
        r
    }

    /// The index of the next token that is not whitespace.
    fn peek_index(&self) -> (k: usize)
        requires
            self.wf(),
        ensures
            k == self.next(),
            self.pos <= k <= self.end,
    {
        let mut k = self.pos;
        proof { lemma_skip_ws_bounds(self.toks(), self.pos as int, self.end as int); }
        while k < self.end
            invariant
                self.wf(),
                self.pos <= k <= self.end,
                skip_ws(self.toks(), k as int, self.end as int) == self.next(),
            decreases self.end - k,
        {
            if let Token::Whitespace(_) = self.file.tokens[k] {
                k += 1;
            } else {
                return k;
            }
        }
        k
    }

    /// Consumes the token at `k`, which is no tree.
    fn consume(&mut self, k: usize)
        requires
            old(self).wf(),
            old(self).pos <= k < old(self).end,
            !(old(self).toks()[k as int] is Tree),
        ensures
            final(self).wf(),
            final(self).advanced_from(old(self)),
            final(self).pos == k + 1,
            final(self).last_end == old(self).spans()[k as int].end,
            *final(self) == old(self).after(k as int),
    {
        self.pos = k + 1;
        self.last_end = self.file.spans[k].end;
        proof { lemma_span_wf(old(self).toks(), old(self).spans(), k as int); }
        assert forall|j: int| self.pos <= j < self.toks().len() && !(self.toks()[j] is Tree)
            implies self.last_end.value() <= (#[trigger] self.spans()[j]).start.value() by {
            lemma_span_order(self.toks(), self.spans(), k as int, j);
        }
    }

    /// Whether any token but whitespace is left.
    pub fn has_more_tokens(&self) -> (r: bool)
        requires
            self.wf(),
        ensures
            r == (self.next() < self.end),
    {
        self.peek_index() < self.end
    }

    /// The span of the next token, or an empty span where the last one ended.
    pub fn current_span(&self) -> (r: Span)
        requires
            self.wf(),
        ensures
            r.wf(),
            self.next() < self.end ==> r == self.spans()[self.next()],
            r == self.here(),
    {
        let k = self.peek_index();
        if k < self.end {
            proof { lemma_span_wf(self.toks(), self.spans(), k as int); }
            self.file.spans[k]
        } else {
            Span { start: self.last_end, end: self.last_end }
        }
    }

    /// Consumes the next token if it is a name.
    pub fn parse_name(&mut self) -> (r: Option<Name>)
        requires
            old(self).wf(),
        ensures
            final(self).wf(),
            final(self).advanced_from(old(self)),
            r is Some <==> old(self).name_next(),
            r is Some ==> *final(self) == old(self).after(old(self).next()),
            r is Some ==> r->0 == old(self).name_at(old(self).next()) && final(self).pos == old(self).next() + 1
                && final(self).last_end == r->0.span.end && r->0.span.wf()
                && old(self).last_end.value() <= r->0.span.start.value(),
            r is None ==> *final(self) == *old(self),
    {
        let k = self.peek_index();
        if k < self.end {
            if let Token::Alphabetic(w) = self.file.tokens[k] {
                if !self.kw.is_keyword(w) {
                    proof {
                        lemma_span_wf(self.toks(), self.spans(), k as int);
                        assert(self.last_end.value() <= self.spans()[k as int].start.value());
                    }
                    let span = self.file.spans[k];
                    self.consume(k);
                    return Some(Name { word: w, span });
                }
            }
        }
        None
    }

    /// Consumes the next token if it is the keyword `w`, and returns its span.
    pub fn eat_keyword(&mut self, w: Word) -> (r: Option<Span>)
        requires
            old(self).wf(),
        ensures
            final(self).wf(),
            final(self).advanced_from(old(self)),
            r is Some <==> old(self).keyword_next(w),
            r is Some ==> *final(self) == old(self).after(old(self).next()),
            r is Some ==> r->0 == old(self).spans()[old(self).next()] && final(self).pos == old(self).next() + 1
                && final(self).last_end == r->0.end && r->0.wf()
                && old(self).last_end.value() <= r->0.start.value(),
            r is None ==> *final(self) == *old(self),
    {
        let k = self.peek_index();
        if k < self.end {
            if let Token::Alphabetic(v) = self.file.tokens[k] {
                if v == w {
                    proof {
                        lemma_span_wf(self.toks(), self.spans(), k as int);
                        assert(self.last_end.value() <= self.spans()[k as int].start.value());
                    }
                    let span = self.file.spans[k];
                    self.consume(k);
                    return Some(span);
                }
            }
        }
        None
    }

    /// Consumes the next token if it is the operator `c`, and returns its span.
    pub fn eat_op(&mut self, c: char) -> (r: Option<Span>)
        requires
            old(self).wf(),
        ensures
            final(self).wf(),
            final(self).advanced_from(old(self)),
            r is Some <==> (old(self).next() < old(self).end && old(self).toks()[old(self).next()] == Token::Op(c)),
            r is Some ==> *final(self) == old(self).after(old(self).next()),
            r is Some ==> r->0 == old(self).spans()[old(self).next()] && final(self).pos == old(self).next() + 1
                && final(self).consumed(old(self), r->0),
            r is None ==> *final(self) == *old(self),
    {
        let k = self.peek_index();
        if k < self.end {
            if let Token::Op(d) = self.file.tokens[k] {
                if d == c {
                    proof {
                        lemma_span_wf(self.toks(), self.spans(), k as int);
                        assert(self.last_end.value() <= self.spans()[k as int].start.value());
                    }
                    let span = self.file.spans[k];
                    self.consume(k);
                    return Some(span);
                }
            }
        }
        None
    }

    /// Consumes a delimited region opened by `open`: the delimiter, the tree and,
    /// when the tree was closed, its closing delimiter. Returns the tree's index.
    pub fn delimited(&mut self, open: char) -> (r: Option<usize>)
        requires
            old(self).wf(),
        ensures
            final(self).wf(),
            final(self).advanced_from(old(self)),
            r is Some <==> ({
                let k = old(self).next();
                k + 1 < old(self).end && old(self).toks()[k] == Token::Delimiter(open)
                    && old(self).toks()[k + 1] is Tree
            }),
            r is Some ==> r->0 == old(self).next() + 1 && r->0 < old(self).toks().len()
                && old(self).toks()[r->0 as int] is Tree && final(self).pos > old(self).pos
                && final(self).pos == old(self).after_tree(old(self).tree_after_next()),
            r is Some ==> *final(self) == old(self).delim_state(),
            r is None ==> *final(self) == *old(self),
    {
        proof { lemma_skip_ws_bounds(self.toks(), self.pos as int, self.end as int); }
        let k = self.peek_index();
        if k < self.end && k + 1 < self.end {
            if let Token::Delimiter(d) = self.file.tokens[k] {
                if d == open {
                    if let Token::Tree(t) = self.file.tokens[k + 1] {
                        proof { lemma_tree_facts(self.toks(), self.spans(), k + 1); }
                                        self.consume(k);
                        let after = t.start + t.len;
                        if !t.open && after < self.end {
                            self.consume(after);
                        } else {
                            self.pos = self.end;
                            proof {
                                assert forall|j: int| self.pos <= j < self.toks().len() && !(self.toks()[j] is Tree)
                                    implies self.last_end.value() <= (#[trigger] self.spans()[j]).start.value() by {
                                    lemma_span_order(self.toks(), self.spans(), k as int, j);
                                }
                            }
                        }
                        return Some(k + 1);
                    }
                }
            }
        }
        None
    }

    /// Pushes a diagnostic at the next token when any token but whitespace is left.
    pub fn emit_error_if_more_tokens(&self, message: &str, diags: &mut Vec<Diagnostic>)
        requires
            self.wf(),
        ensures
            extends(old(diags)@, final(diags)@),
            final(diags)@.len() == old(diags)@.len() + (if self.next() < self.end { 1int } else { 0int }),
            self.next() < self.end ==> final(diags)@.last().message@ == message@
                && final(diags)@.last().span == self.spans()[self.next()],
            self.next() < self.end ==> dview(final(diags)@.last()) == (message@, self.spans()[self.next()], Seq::<(Span, Seq<char>)>::empty()),
    {
        let k = self.peek_index();
        if k < self.end {
            diags.push(Diagnostic::new(message, self.file.spans[k]));
        }
        assert(final(diags)@.subrange(0, old(diags)@.len() as int) =~= old(diags)@);
    }

    /// The token after `k`, skipping whitespace, is a name.
    pub open spec fn name_after(&self, k: int) -> bool {
        let j = skip_ws(self.toks(), k + 1, self.end as int);
        &&& j < self.end
        &&& self.toks()[j] is Alphabetic
        &&& !self.kw.contains(self.toks()[j]->Alphabetic_0)
    }

    /// The cursor after consuming the token at `k`.
    pub open spec fn after(self, k: int) -> CodeParser<'a> {
        CodeParser { file: self.file, kw: self.kw, pos: (k + 1) as usize, end: self.end, last_end: self.spans()[k].end }
    }

    /// Where a diagnostic at the cursor goes: the next token, or the empty span
    /// where the last consumed token ended.
    pub open spec fn here(self) -> Span {
        if self.next() < self.end {
            self.spans()[self.next()]
        } else {
            Span { start: self.last_end, end: self.last_end }
        }
    }

    /// What `: Type` at the cursor parses to: the type, the cursor after it,
    /// and the diagnostics it raises.
    pub open spec fn colon_ty_spec(self) -> (Option<Name>, CodeParser<'a>, Seq<DiagView>) {
        let k = self.next();
        if self.colon_at(k) {
            let p1 = self.after(k);
            if p1.name_next() {
                (Some(p1.name_at(p1.next())), p1.after(p1.next()), Seq::empty())
            } else {
                (None, p1, seq![("expected type after `:`"@, p1.here(), Seq::<(Span, Seq<char>)>::empty())])
            }
        } else {
            (None, self, Seq::empty())
        }
    }

    /// What one parameter at the cursor parses to.
    pub open spec fn parameter_spec(self) -> (Option<LocalVariableDecl>, CodeParser<'a>, Seq<DiagView>) {
        let k = self.next();
        if self.keyword_next(self.kw.atomic_kw) {
            let a = self.spans()[k];
            let p1 = self.after(k);
            if p1.name_next() {
                let n = p1.name_at(p1.next());
                let (ty, p3, ds) = p1.after(p1.next()).colon_ty_spec();
                (Some(decl_of(Some(a), n, ty)), p3, ds)
            } else {
                (None, p1, seq![("expected parameter name after `atomic`"@, p1.here(),
                    seq![(a, "`atomic` specified here"@)])])
            }
        } else if self.name_next() {
            let n = self.name_at(k);
            let (ty, p3, ds) = self.after(k).colon_ty_spec();
            (Some(decl_of(None, n, ty)), p3, ds)
        } else {
            (None, self, Seq::empty())
        }
    }

    /// What one generic parameter at the cursor parses to.
    pub open spec fn generic_spec(self) -> (Option<GenericParameter>, CodeParser<'a>, Seq<DiagView>) {
        let k = self.next();
        if self.name_next() {
            (Some(GenericParameter::Type(self.name_at(k))), self.after(k), Seq::empty())
        } else if self.perm_next() {
            let perm = PermKw { perm: self.perm_of(self.toks()[k]->Alphabetic_0)->0, span: self.spans()[k] };
            let p1 = self.after(k);
            if p1.name_next() {
                (Some(GenericParameter::Permission(perm, p1.name_at(p1.next()))), p1.after(p1.next()), Seq::empty())
            } else {
                (None, p1, seq![("expected name after permission"@, p1.here(), Seq::<(Span, Seq<char>)>::empty())])
            }
        } else {
            (None, self, Seq::empty())
        }
    }

    /// What a comma-separated list of generic parameters at the cursor parses to.
    pub open spec fn generics_spec(self) -> (Seq<GenericParameter>, CodeParser<'a>, Seq<DiagView>)
        decreases self.end - self.pos,
    {
        let (g, p1, ds1) = self.generic_spec();
        if g is None && p1.pos == self.pos {
            (Seq::empty(), self, Seq::empty())
        } else {
            let e1 = if g is Some { seq![g->0] } else { Seq::empty() };
            if p1.op_next(',') {
                let p2 = p1.after(p1.next());
                if self.pos < p2.pos && p2.pos <= self.end && p2.end == self.end {
                    let (rest, p3, ds2) = p2.generics_spec();
                    (e1 + rest, p3, ds1 + ds2)
                } else {
                    (e1, p2, ds1)
                }
            } else {
                (e1, p1, ds1)
            }
        }
    }

    /// The generic parameters of a whole region, with one "extra tokens"
    /// diagnostic exactly when tokens are left after the list.
    pub open spec fn only_generics_spec(self) -> (Seq<GenericParameter>, CodeParser<'a>, Seq<DiagView>) {
        let (e, p, ds) = self.generics_spec();
        if p.next() < p.end {
            (e, p, ds.push(("extra tokens after generic parameters"@, p.spans()[p.next()], Seq::<(Span, Seq<char>)>::empty())))
        } else {
            (e, p, ds)
        }
    }

    /// The cursor after a delimited region at the cursor: past its closing
    /// delimiter, or at the end when the tree stays open.
    pub open spec fn delim_state(self) -> CodeParser<'a> {
        let k = self.next();
        let t = self.tree_after_next();
        if !t.open && t.end() < self.end {
            self.after(k).after(t.end())
        } else {
            CodeParser { file: self.file, kw: self.kw, pos: self.end, end: self.end, last_end: self.spans()[k].end }
        }
    }

    /// One diagnostic with `message` at the cursor.
    pub open spec fn report_spec(self, message: Seq<char>) -> Seq<DiagView> {
        seq![(message, self.here(), Seq::<(Span, Seq<char>)>::empty())]
    }

    /// What an optional `[...]` at the cursor parses to.
    pub open spec fn generics_part(self) -> (Seq<GenericParameter>, CodeParser<'a>, Seq<DiagView>) {
        if self.delimited_next('[') {
            let r = self.sub_at(self.next() + 1).only_generics_spec();
            (r.0, self.delim_state(), r.2)
        } else {
            (Seq::empty(), self, Seq::empty())
        }
    }

    /// What a `(...)` at the cursor parses to, if one is there.
    pub open spec fn params_part(self) -> (Option<Seq<LocalVariableDecl>>, CodeParser<'a>, Seq<DiagView>) {
        if self.delimited_next('(') {
            let r = self.sub_at(self.next() + 1).only_params_spec();
            (Some(r.0), self.delim_state(), r.2)
        } else {
            (None, self, Seq::empty())
        }
    }

    /// The parameters at the cursor, or none with a diagnostic `message` when no
    /// `(...)` is there.
    pub open spec fn params_or_report(self, message: Seq<char>) -> (Seq<LocalVariableDecl>, CodeParser<'a>, Seq<DiagView>) {
        let (pl, p, d) = self.params_part();
        if pl is Some {
            (pl->0, p, d)
        } else {
            (Seq::empty(), self, self.report_spec(message))
        }
    }

    /// What an optional `-> Type` at the cursor parses to.
    pub open spec fn return_spec(self) -> (Option<ReturnTy>, CodeParser<'a>, Seq<DiagView>) {
        let k = self.next();
        if k < self.end && k + 1 < self.end && self.toks()[k] == Token::Op('-') && self.toks()[k + 1] == Token::Op('>') {
            let p1 = self.after(k).after(k + 1);
            let start = self.spans()[k].start;
            if p1.name_next() {
                let n = p1.name_at(p1.next());
                (Some(ReturnTy { ty: Some(n), span: Span { start, end: n.span.end } }), p1.after(p1.next()), Seq::empty())
            } else {
                (Some(ReturnTy { ty: None, span: Span { start, end: p1.last_end } }), p1,
                    p1.report_spec("expected return type after `->`"@))
            }
        } else {
            (None, self, Seq::empty())
        }
    }

    /// What a function at the cursor parses to, once its effect keyword, if any,
    /// is consumed; `start` is where the item began.
    pub open spec fn fn_spec(self, effect: Option<EffectKeyword>, start: Offset) -> (Option<ItemView>, CodeParser<'a>, Seq<DiagView>) {
        if !self.keyword_next(self.kw.fn_kw) {
            (None, self, Seq::empty())
        } else {
            let p1 = self.after(self.next());
            if !p1.name_next() {
                (None, p1, p1.report_spec("expected function name after `fn`"@))
            } else {
                let n = p1.name_at(p1.next());
                let (g, p3, d3) = p1.after(p1.next()).generics_part();
                let (params, p4, d4) = p3.params_or_report("expected parameters"@);
                let (rt, p5, d5) = p4.return_spec();
                if p5.delimited_next('{') {
                    let p6 = p5.delim_state();
                    (Some((true, effect, n, g, params, rt, Some(p5.tree_after_next()), Span { start, end: p6.last_end })),
                        p6, d3 + d4 + d5)
                } else {
                    (None, p5, d3 + d4 + d5 + p5.report_spec("expected function body"@))
                }
            }
        }
    }

    /// What a class at the cursor parses to.
    pub open spec fn class_spec(self) -> (Option<ItemView>, CodeParser<'a>, Seq<DiagView>) {
        if !self.keyword_next(self.kw.class_kw) {
            (None, self, Seq::empty())
        } else {
            let kw_span = self.spans()[self.next()];
            let p1 = self.after(self.next());
            if !p1.name_next() {
                (None, p1, p1.report_spec("expected class name after `class`"@))
            } else {
                let n = p1.name_at(p1.next());
                let (g, p3, d3) = p1.after(p1.next()).generics_part();
                let (fields, p4, d4) = p3.params_or_report("expected fields"@);
                (Some((false, None, n, g, fields, None, None, Span { start: kw_span.start, end: p4.last_end })), p4, d3 + d4)
            }
        }
    }

    /// What one item at the cursor parses to.
    #[verifier::opaque]
    pub open spec fn item_spec(self) -> (Option<ItemView>, CodeParser<'a>, Seq<DiagView>) {
        let k = self.next();
        if self.keyword_next(self.kw.atomic_kw) || self.keyword_next(self.kw.async_kw) {
            let e = if self.keyword_next(self.kw.atomic_kw) { EffectKeyword::Atomic(self.spans()[k]) } else { EffectKeyword::Async(self.spans()[k]) };
            let p1 = self.after(k);
            let (it, p2, d) = p1.fn_spec(Some(e), self.spans()[k].start);
            if it is None && p2.pos == p1.pos {
                (None, p2, d + p2.report_spec("expected `fn` after effect keyword"@))
            } else {
                (it, p2, d)
            }
        } else if self.keyword_next(self.kw.fn_kw) {
            self.fn_spec(None, self.spans()[k].start)
        } else {
            self.class_spec()
        }
    }

    /// The cursor after skipping the next token, or the whole region it opens.
    pub open spec fn skip_spec(self) -> CodeParser<'a> {
        let k = self.next();
        match self.toks()[k] {
            Token::Tree(_) => CodeParser { file: self.file, kw: self.kw, pos: (k + 1) as usize, end: self.end, last_end: self.last_end },
            Token::Delimiter(c) => if self.delimited_next(c) { self.delim_state() } else { self.after(k) },
            _ => self.after(k),
        }
    }

    /// `q` has moved forward within the same region.
    pub open spec fn moved_to(self, q: CodeParser<'a>) -> bool {
        self.pos < q.pos && q.pos <= self.end && q.end == self.end
    }

    /// What the items up to the end of the region parse to. Tokens that start
    /// no item are reported once per run (`reported`: the run has been
    /// reported already) and skipped.
    #[verifier::opaque]
    pub open spec fn items_spec(self, reported: bool) -> (Seq<ItemView>, CodeParser<'a>, Seq<DiagView>)
        decreases self.end - self.pos,
    {
        if self.next() >= self.end {
            (Seq::empty(), self, Seq::empty())
        } else {
            let (it, p1, d1) = self.item_spec();
            if it is Some {
                if self.moved_to(p1) {
                    let (rest, p, d) = p1.items_spec(false);
                    (seq![it->0] + rest, p, d1 + d)
                } else {
                    (seq![it->0], p1, d1)
                }
            } else if p1.pos != self.pos {
                if self.moved_to(p1) {
                    let (rest, p, d) = p1.items_spec(reported);
                    (rest, p, d1 + d)
                } else {
                    (Seq::empty(), p1, d1)
                }
            } else {
                let d2 = if reported { Seq::empty() } else { p1.report_spec("expected an item"@) };
                let p2 = p1.skip_spec();
                if self.moved_to(p2) {
                    let (rest, p, d) = p2.items_spec(true);
                    (rest, p, d1 + d2 + d)
                } else {
                    (Seq::empty(), p2, d1 + d2)
                }
            }
        }
    }

    /// The next token is the operator `c`.
    pub open spec fn op_next(self, c: char) -> bool {
        self.next() < self.end && self.toks()[self.next()] == Token::Op(c)
    }

    /// What a comma-separated list of parameters at the cursor parses to: a
    /// parameter that fails after consuming something is dropped and the list
    /// goes on after the next comma; the list stops where no parameter starts
    /// or no comma follows.
    pub open spec fn params_spec(self) -> (Seq<LocalVariableDecl>, CodeParser<'a>, Seq<DiagView>)
        decreases self.end - self.pos,
    {
        let (d, p1, ds1) = self.parameter_spec();
        if d is None && p1.pos == self.pos {
            (Seq::empty(), self, Seq::empty())
        } else {
            let e1 = if d is Some { seq![d->0] } else { Seq::empty() };
            if p1.op_next(',') {
                let p2 = p1.after(p1.next());
                if self.pos < p2.pos && p2.pos <= self.end && p2.end == self.end {
                    let (rest, p3, ds2) = p2.params_spec();
                    (e1 + rest, p3, ds1 + ds2)
                } else {
                    (e1, p2, ds1)
                }
            } else {
                (e1, p1, ds1)
            }
        }
    }

    /// The parameters of a whole region, with one "extra tokens" diagnostic
    /// exactly when tokens are left after the list.
    pub open spec fn only_params_spec(self) -> (Seq<LocalVariableDecl>, CodeParser<'a>, Seq<DiagView>) {
        let (e, p, ds) = self.params_spec();
        if p.next() < p.end {
            (e, p, ds.push(("extra tokens after parameters"@, p.spans()[p.next()], Seq::<(Span, Seq<char>)>::empty())))
        } else {
            (e, p, ds)
        }
    }

    /// The token at `k` is a colon.
    pub open spec fn colon_at(&self, k: int) -> bool {
        k < self.end && self.toks()[k] == Token::Op(':')
    }

    /// The type that `: Type` at `k` gives, if a colon and a name stand there.
    pub open spec fn ty_after_colon(&self, k: int) -> Option<Name> {
        if self.colon_at(k) && self.name_after(k) {
            Some(self.name_at(skip_ws(self.toks(), k + 1, self.end as int)))
        } else {
            None
        }
    }

    /// The permission that the keyword `w` stands for, if any.
    pub open spec fn perm_of(&self, w: Word) -> Option<Perm> {
        if w == self.kw.my_kw {
            Some(Perm::My)
        } else if w == self.kw.our_kw {
            Some(Perm::Our)
        } else if w == self.kw.leased_kw {
            Some(Perm::Leased)
        } else if w == self.kw.shared_kw {
            Some(Perm::Shared)
        } else {
            None
        }
    }

    /// The next token is a permission keyword.
    pub open spec fn perm_next(&self) -> bool {
        let k = self.next();
        k < self.end && self.toks()[k] is Alphabetic && self.perm_of(self.toks()[k]->Alphabetic_0) is Some
    }

    /// `span` lies between where `old` had stopped and where `self` stops.
    pub open spec fn consumed(&self, old: &CodeParser, span: Span) -> bool {
        &&& span.wf()
        &&& old.last_end.value() <= span.start.value()
        &&& span.end.value() <= self.last_end.value()
    }

    /// Consumes a permission keyword.
    pub fn parse_perm(&mut self) -> (r: Option<PermKw>)
        requires
            old(self).wf(),
        ensures
            final(self).wf(),
            final(self).advanced_from(old(self)),
            r is Some <==> old(self).perm_next(),
            r is Some ==> *final(self) == old(self).after(old(self).next()),
            r is Some ==> r->0.perm == old(self).perm_of(old(self).toks()[old(self).next()]->Alphabetic_0)->0
                && r->0.span == old(self).spans()[old(self).next()]
                && final(self).pos == old(self).next() + 1
                && final(self).consumed(old(self), r->0.span),
            r is None ==> *final(self) == *old(self),
    {
        let kw = self.kw;
        proof { lemma_skip_ws_bounds(self.toks(), self.pos as int, self.end as int); }
        let ghost k = self.next();
        if let Some(span) = self.eat_keyword(kw.my_kw) {
            assert(old(self).last_end.value() <= span.start.value());
            return Some(PermKw { perm: Perm::My, span });
        }
        if let Some(span) = self.eat_keyword(kw.our_kw) {
            return Some(PermKw { perm: Perm::Our, span });
        }
        if let Some(span) = self.eat_keyword(kw.leased_kw) {
            return Some(PermKw { perm: Perm::Leased, span });
        }
        if let Some(span) = self.eat_keyword(kw.shared_kw) {
            return Some(PermKw { perm: Perm::Shared, span });
        }
        None
    }

    /// Consumes an `atomic` keyword.
    pub fn parse_atomic(&mut self) -> (r: Option<Span>)
        requires
            old(self).wf(),
        ensures
            final(self).wf(),
            final(self).advanced_from(old(self)),
            r is Some <==> old(self).keyword_next(old(self).kw.atomic_kw),
            r is Some ==> r->0 == old(self).spans()[old(self).next()] && final(self).pos == old(self).next() + 1
                && final(self).consumed(old(self), r->0) && final(self).last_end == r->0.end,
            r is Some ==> *final(self) == old(self).after(old(self).next()),
            r is None ==> *final(self) == *old(self),
    {
        let w = self.kw.atomic_kw;
        self.eat_keyword(w)
    }

    /// Consumes an `async` keyword.
    pub fn parse_async(&mut self) -> (r: Option<Span>)
        requires
            old(self).wf(),
        ensures
            final(self).wf(),
            final(self).advanced_from(old(self)),
            r is Some <==> old(self).keyword_next(old(self).kw.async_kw),
            r is Some ==> r->0 == old(self).spans()[old(self).next()] && final(self).consumed(old(self), r->0)
                && final(self).last_end == r->0.end,
            r is Some ==> *final(self) == old(self).after(old(self).next()),
            r is None ==> *final(self) == *old(self),
    {
        let w = self.kw.async_kw;
        self.eat_keyword(w)
    }

    /// Consumes an effect keyword: `atomic` or `async`.
    pub fn parse_effect(&mut self) -> (r: Option<EffectKeyword>)
        requires
            old(self).wf(),
        ensures
            final(self).wf(),
            final(self).advanced_from(old(self)),
            old(self).keyword_next(old(self).kw.atomic_kw) ==> r == Some(EffectKeyword::Atomic(old(self).spans()[old(self).next()])),
            !old(self).keyword_next(old(self).kw.atomic_kw) && old(self).keyword_next(old(self).kw.async_kw)
                ==> r == Some(EffectKeyword::Async(old(self).spans()[old(self).next()])),
            !old(self).keyword_next(old(self).kw.atomic_kw) && !old(self).keyword_next(old(self).kw.async_kw)
                ==> r is None && *final(self) == *old(self),
            r is Some ==> (match r->0 {
                EffectKeyword::Atomic(s) => s.wf() && s.end == final(self).last_end,
                EffectKeyword::Async(s) => s.wf() && s.end == final(self).last_end,
            }),
            r is Some ==> *final(self) == old(self).after(old(self).next()),
    {
        if let Some(s) = self.parse_atomic() {
            Some(EffectKeyword::Atomic(s))
        } else if let Some(s) = self.parse_async() {
            Some(EffectKeyword::Async(s))
        } else {
            None
        }
    }

    /// Parses one generic parameter: `T` or `my T`.
    pub fn parse_generic_parameter(&mut self, diags: &mut Vec<Diagnostic>) -> (r: Option<GenericParameter>)
        requires
            old(self).wf(),
        ensures
            final(self).wf(),
            final(self).advanced_from(old(self)),
            extends(old(diags)@, final(diags)@),
            old(self).name_next() ==> r == Some(GenericParameter::Type(old(self).name_at(old(self).next())))
                && final(diags)@ == old(diags)@,
            !old(self).name_next() && old(self).perm_next() && old(self).name_after(old(self).next()) ==> r == Some(
                GenericParameter::Permission(
                    PermKw {
                        perm: old(self).perm_of(old(self).toks()[old(self).next()]->Alphabetic_0)->0,
                        span: old(self).spans()[old(self).next()],
                    },
                    old(self).name_at(skip_ws(old(self).toks(), old(self).next() + 1, old(self).end as int)),
                ),
            ) && final(diags)@ == old(diags)@,
            !old(self).name_next() && old(self).perm_next() && !old(self).name_after(old(self).next()) ==> r is None
                && final(diags)@.len() == old(diags)@.len() + 1
                && final(diags)@.last().message@ == "expected name after permission"@
                && ({
                    let j = skip_ws(old(self).toks(), old(self).next() + 1, old(self).end as int);
                    j < old(self).end ==> final(diags)@.last().span == old(self).spans()[j]
                }),
            !old(self).name_next() && !old(self).perm_next() ==> r is None && *final(self) == *old(self)
                && final(diags)@ == old(diags)@,
            r == old(self).generic_spec().0,
            *final(self) == old(self).generic_spec().1,
            appended(old(diags)@, final(diags)@, old(self).generic_spec().2),
    {
        proof { assert(old(diags)@.subrange(0, old(diags)@.len() as int) =~= old(diags)@); }
        proof { lemma_appended_none(old(diags)@); }
        if let Some(name) = self.parse_name() {
            return Some(GenericParameter::Type(name));
        }
        if let Some(perm) = self.parse_perm() {
            if let Some(name) = self.parse_name() {
                return Some(GenericParameter::Permission(perm, name));
            }
            let span = self.current_span();
            let d = Diagnostic::new("expected name after permission", span);
            proof { lemma_appended_push(diags@, d); }
            diags.push(d);
            assert(final(diags)@.subrange(0, old(diags)@.len() as int) =~= old(diags)@);
            return None;
        }
        None
    }

    /// Parses `: Type` when a colon comes next.
    fn parse_colon_ty(&mut self, diags: &mut Vec<Diagnostic>) -> (r: Option<Name>)
        requires
            old(self).wf(),
        ensures
            final(self).wf(),
            final(self).advanced_from(old(self)),
            extends(old(diags)@, final(diags)@),
            r is Some ==> final(self).consumed(old(self), r->0.span) && r->0.span.end == final(self).last_end,
            r is None ==> final(self).last_end == old(self).last_end || final(diags)@.len() == old(diags)@.len() + 1,
            r == old(self).ty_after_colon(old(self).next()),
            !old(self).colon_at(old(self).next()) ==> *final(self) == *old(self) && final(diags)@ == old(diags)@,
            old(self).colon_at(old(self).next()) && !old(self).name_after(old(self).next())
                ==> final(diags)@.len() == old(diags)@.len() + 1
                && final(diags)@.last().message@ == "expected type after `:`"@,
            r == old(self).colon_ty_spec().0,
            *final(self) == old(self).colon_ty_spec().1,
            appended(old(diags)@, final(diags)@, old(self).colon_ty_spec().2),
    {
        proof { lemma_appended_none(old(diags)@); }
        proof { lemma_skip_ws_bounds(self.toks(), self.pos as int, self.end as int); }
        proof { assert(old(diags)@.subrange(0, old(diags)@.len() as int) =~= old(diags)@); }
        if self.eat_op(':').is_none() {
            return None;
        }
        let ghost mid = *self;
        if let Some(ty) = self.parse_name() {
            return Some(ty);
        }
        let span = self.current_span();
        let d = Diagnostic::new("expected type after `:`", span);
        proof { lemma_appended_push(diags@, d); }
        diags.push(d);
        assert(final(diags)@.subrange(0, old(diags)@.len() as int) =~= old(diags)@);
        None
    }

    /// Parses one parameter: `[atomic] name [: Type]`. An `atomic` with no name
    /// after it is reported, and no parameter is produced.
    pub fn parse_parameter(&mut self, diags: &mut Vec<Diagnostic>) -> (r: Option<LocalVariableDecl>)
        requires
            old(self).wf(),
        ensures
            final(self).wf(),
            final(self).advanced_from(old(self)),
            extends(old(diags)@, final(diags)@),
            r is Some ==> r->0.span_is_union() && final(self).consumed(old(self), r->0.span),
            old(self).keyword_next(old(self).kw.atomic_kw) ==> ({
                let k = old(self).next();
                let kn = skip_ws(old(self).toks(), k + 1, old(self).end as int);
                &&& final(self).pos > old(self).pos
                &&& old(self).name_after(k) ==> r is Some && r->0.atomic == Some(old(self).spans()[k])
                    && r->0.name == old(self).name_at(kn)
                    && r->0.ty == old(self).ty_after_colon(skip_ws(old(self).toks(), kn + 1, old(self).end as int))
                &&& !old(self).name_after(k) ==> r is None
                    && final(diags)@.len() == old(diags)@.len() + 1
                    && final(diags)@.last().message@ == "expected parameter name after `atomic`"@
                    && final(diags)@.last().labels@.len() == 1
                    && final(diags)@.last().labels@[0].span == old(self).spans()[k]
                    && final(diags)@.last().labels@[0].message@ == "`atomic` specified here"@
                    && (kn < old(self).end ==> final(diags)@.last().span == old(self).spans()[kn])
                    && final(diags)@.last().span == final(self).here()
            }),
            old(self).name_next() ==> r is Some && r->0.atomic is None && r->0.name == old(self).name_at(old(self).next())
                && r->0.ty == old(self).ty_after_colon(skip_ws(old(self).toks(), old(self).next() + 1, old(self).end as int)),
            !old(self).keyword_next(old(self).kw.atomic_kw) && !old(self).name_next() ==> r is None
                && *final(self) == *old(self) && final(diags)@ == old(diags)@,
            r == old(self).parameter_spec().0,
            *final(self) == old(self).parameter_spec().1,
            appended(old(diags)@, final(diags)@, old(self).parameter_spec().2),
    {
        proof { assert(old(diags)@.subrange(0, old(diags)@.len() as int) =~= old(diags)@); }
        proof { lemma_skip_ws_bounds(self.toks(), self.pos as int, self.end as int); }
        proof { lemma_appended_none(old(diags)@); }
        let atomic = self.parse_atomic();
        let name = match self.parse_name() {
            Some(n) => n,
            None => {
                if let Some(a) = atomic {
                    let span = self.current_span();
                    let d = Diagnostic::new("expected parameter name after `atomic`", span)
                        .secondary_label(a, "`atomic` specified here");
                    assert(d.labels@[0] == d.labels@.last());
                    proof {
                        lemma_appended_push(diags@, d);
                        assert(seq![(a, "`atomic` specified here"@)] =~= Seq::<(Span, Seq<char>)>::empty().push((a, "`atomic` specified here"@)));
                    }
                    diags.push(d);
                    assert(final(diags)@.subrange(0, old(diags)@.len() as int) =~= old(diags)@);
                }
                return None;
            },
        };
        let ghost d1 = diags@;
        let ty = self.parse_colon_ty(diags);
        proof { lemma_extends_trans(old(diags)@, d1, diags@); }
        let start = match atomic {
            Some(a) => a.start,
            None => name.span.start,
        };
        let end = match ty {
            Some(t) => t.span.end,
            None => name.span.end,
        };
        Some(LocalVariableDecl { atomic, name, ty, span: Span { start, end } })
    }

    /// Parses a comma-separated list of generic parameters up to the end of the
    /// region, and reports any tokens left over.
    pub fn parse_only_generic_parameters(&mut self, diags: &mut Vec<Diagnostic>) -> (r: Vec<GenericParameter>)
        requires
            old(self).wf(),
        ensures
            final(self).wf(),
            final(self).advanced_from(old(self)),
            extends(old(diags)@, final(diags)@),
            r@ == old(self).only_generics_spec().0,
            *final(self) == old(self).only_generics_spec().1,
            appended(old(diags)@, final(diags)@, old(self).only_generics_spec().2),
    {
        let mut v: Vec<GenericParameter> = Vec::new();
        let ghost d0 = diags@;
        let ghost start_state = *self;
        let ghost sp = start_state.generics_spec();
        let ghost mut added: Seq<DiagView> = Seq::empty();
        proof {
            assert(d0.subrange(0, d0.len() as int) =~= d0);
            lemma_appended_none(d0);
            assert(v@ + self.generics_spec().0 =~= sp.0);
            assert(added + self.generics_spec().2 =~= sp.2);
        }
        loop
            invariant_except_break
                sp.0 == v@ + self.generics_spec().0,
                sp.1 == self.generics_spec().1,
                sp.2 == added + self.generics_spec().2,
            invariant
                self.wf(),
                self.advanced_from(&start_state),
                extends(d0, diags@),
                start_state == *old(self),
                d0 == old(diags)@,
                sp == start_state.generics_spec(),
                appended(d0, diags@, added),
            ensures
                v@ == sp.0 && *self == sp.1 && sp.2 == added,
            decreases self.end - self.pos,
        {
            let ghost before = *self;
            let ghost d1 = diags@;
            let ghost v1 = v@;
            let ghost added1 = added;
            let ghost hs = before.generics_spec();
            let ghost ps = before.generic_spec();
            proof { lemma_skip_ws_bounds(before.toks(), before.pos as int, before.end as int); }
            let p = self.pos;
            let decl = self.parse_generic_parameter(diags);
            proof {
                lemma_extends_trans(d0, d1, diags@);
                lemma_appended_trans(d0, d1, diags@, added1, ps.2);
                added = added1 + ps.2;
                lemma_skip_ws_bounds(self.toks(), self.pos as int, self.end as int);
            }
            match decl {
                Some(d) => {
                    v.push(d);
                },
                None => {
                    if self.pos == p {
                        proof {
                            assert(ps.2 =~= Seq::<DiagView>::empty());
                            assert(added =~= added1);
                            assert(v@ =~= v1 + hs.0);
                            assert(sp.2 =~= added);
                        }
                        break;
                    }
                },
            }
            let ghost e1: Seq<GenericParameter> = if ps.0 is Some { seq![ps.0->0] } else { Seq::empty() };
            assert(v@ =~= v1 + e1);
            if self.eat_op(',').is_none() {
                proof {
                    assert(hs == (e1, *self, ps.2));
                    assert(sp.0 =~= v@);
                    assert(sp.2 =~= added1 + ps.2);
                }
                break;
            }
            proof {
                let rest = self.generics_spec();
                assert(hs == (e1 + rest.0, rest.1, ps.2 + rest.2));
                assert(sp.0 =~= v@ + rest.0);
                assert(sp.2 =~= added + rest.2);
            }
        }
        let ghost d2 = diags@;
        proof { lemma_skip_ws_bounds(self.toks(), self.pos as int, self.end as int); }
        self.emit_error_if_more_tokens("extra tokens after generic parameters", diags);
        proof {
            lemma_extends_trans(d0, d2, diags@);
            if self.next() < self.end {
                assert(diags@.subrange(0, d2.len() as int) == d2);
                assert(diags@ =~= d2.push(diags@.last()));
                lemma_appended_push(d2, diags@.last());
            } else {
                assert(diags@.subrange(0, d2.len() as int) == d2);
                assert(diags@ =~= d2);
                lemma_appended_none(d2);
            }
            let t = ("extra tokens after generic parameters"@, self.spans()[self.next()], Seq::<(Span, Seq<char>)>::empty());
            lemma_appended_trans(d0, d2, diags@, sp.2, if self.next() < self.end { seq![t] } else { Seq::empty() });
            assert(sp.2.push(t) =~= sp.2 + seq![t]);
            assert(sp.2 + Seq::<DiagView>::empty() =~= sp.2);
        }
        v
    }

    /// Parses a comma-separated list of parameters up to the end of the region,
    /// and reports any tokens left over. A malformed parameter is dropped and the
    /// list goes on after it.
    pub fn parse_only_parameters(&mut self, diags: &mut Vec<Diagnostic>) -> (r: Vec<LocalVariableDecl>)
        requires
            old(self).wf(),
        ensures
            final(self).wf(),
            final(self).advanced_from(old(self)),
            extends(old(diags)@, final(diags)@),
            forall|i: int| 0 <= i < r@.len() ==> (#[trigger] r@[i]).span_is_union()
                && final(self).consumed(old(self), r@[i].span),
            forall|i: int, j: int| 0 <= i < j < r@.len() ==> (#[trigger] r@[i]).span.end.value() <= (#[trigger] r@[j]).span.start.value(),
            r@ == old(self).only_params_spec().0,
            *final(self) == old(self).only_params_spec().1,
            appended(old(diags)@, final(diags)@, old(self).only_params_spec().2),
    {
        let mut v: Vec<LocalVariableDecl> = Vec::new();
        let ghost d0 = diags@;
        let ghost start_state = *self;
        let ghost sp = start_state.params_spec();
        let ghost mut added: Seq<DiagView> = Seq::empty();
        proof {
            assert(d0.subrange(0, d0.len() as int) =~= d0);
            lemma_appended_none(d0);
            assert(v@ + self.params_spec().0 =~= sp.0);
            assert(added + self.params_spec().2 =~= sp.2);
        }
        loop
            invariant_except_break
                sp.0 == v@ + self.params_spec().0,
                sp.1 == self.params_spec().1,
                sp.2 == added + self.params_spec().2,
            invariant
                self.wf(),
                self.advanced_from(&start_state),
                extends(d0, diags@),
                start_state == *old(self),
                d0 == old(diags)@,
                sp == start_state.params_spec(),
                appended(d0, diags@, added),
                forall|i: int| 0 <= i < v@.len() ==> (#[trigger] v@[i]).span_is_union()
                    && self.consumed(&start_state, v@[i].span),
                forall|i: int, j: int| 0 <= i < j < v@.len() ==> (#[trigger] v@[i]).span.end.value() <= (#[trigger] v@[j]).span.start.value(),
            ensures
                v@ == sp.0 && *self == sp.1 && sp.2 == added,
            decreases self.end - self.pos,
        {
            let ghost before = *self;
            let ghost d1 = diags@;
            let ghost v1 = v@;
            let ghost added1 = added;
            let ghost hs = before.params_spec();
            let ghost ps = before.parameter_spec();
            proof { lemma_skip_ws_bounds(before.toks(), before.pos as int, before.end as int); }
            let p = self.pos;
            let decl = self.parse_parameter(diags);
            proof {
                lemma_extends_trans(d0, d1, diags@);
                lemma_appended_trans(d0, d1, diags@, added1, ps.2);
                added = added1 + ps.2;
                lemma_skip_ws_bounds(self.toks(), self.pos as int, self.end as int);
            }
            match decl {
                Some(d) => {
                    v.push(d);
                    proof {
                        assert forall|i: int| 0 <= i < v1.len() implies v1[i].span.end.value() <= d.span.start.value() by {
                            assert(before.consumed(&start_state, v1[i].span));
                        }
                    }
                },
                None => {
                    if self.pos == p {
                        proof {
                            assert(ps.2 =~= Seq::<DiagView>::empty());
                            assert(added =~= added1);
                            assert(v@ =~= v1 + hs.0);
                            assert(sp.2 =~= added);
                        }
                        break;
                    }
                },
            }
            let ghost e1: Seq<LocalVariableDecl> = if ps.0 is Some { seq![ps.0->0] } else { Seq::empty() };
            assert(v@ =~= v1 + e1);
            if self.eat_op(',').is_none() {
                proof {
                    assert(hs == (e1, *self, ps.2));
                    assert(sp.0 =~= v@);
                    assert(sp.2 =~= added1 + ps.2);
                }
                break;
            }
            proof {
                let rest = self.params_spec();
                assert(hs == (e1 + rest.0, rest.1, ps.2 + rest.2));
                assert(sp.0 =~= v@ + rest.0);
                assert(sp.2 =~= added + rest.2);
            }
        }
        let ghost d2 = diags@;
        proof { lemma_skip_ws_bounds(self.toks(), self.pos as int, self.end as int); }
        self.emit_error_if_more_tokens("extra tokens after parameters", diags);
        proof {
            lemma_extends_trans(d0, d2, diags@);
            if self.next() < self.end {
                assert(diags@.subrange(0, d2.len() as int) == d2);
                assert(diags@ =~= d2.push(diags@.last()));
                lemma_appended_push(d2, diags@.last());
            } else {
                assert(diags@.subrange(0, d2.len() as int) == d2);
                assert(diags@ =~= d2);
                lemma_appended_none(d2);
            }
            let t = ("extra tokens after parameters"@, self.spans()[self.next()], Seq::<(Span, Seq<char>)>::empty());
            lemma_appended_trans(d0, d2, diags@, sp.2, if self.next() < self.end { seq![t] } else { Seq::empty() });
            assert(sp.2.push(t) =~= sp.2 + seq![t]);
            assert(sp.2 + Seq::<DiagView>::empty() =~= sp.2);
        }
        v
    }

    /// Parses an optional list of generic parameters delimited by `[]`.
    pub fn parse_generic_parameters(&mut self, diags: &mut Vec<Diagnostic>) -> (r: Vec<GenericParameter>)
        requires
            old(self).wf(),
        ensures
            final(self).wf(),
            final(self).advanced_from(old(self)),
            extends(old(diags)@, final(diags)@),
            !({
                let k = old(self).next();
                k + 1 < old(self).end && old(self).toks()[k] == Token::Delimiter('[')
                    && old(self).toks()[k + 1] is Tree
            }) ==> r@.len() == 0 && *final(self) == *old(self) && final(diags)@ == old(diags)@,
            old(self).delimited_next('[') ==> ({
                let sub = old(self).sub_at(old(self).next() + 1);
                &&& final(self).pos == old(self).after_tree(old(self).tree_after_next())
                &&& r@ == sub.only_generics_spec().0
                &&& appended(old(diags)@, final(diags)@, sub.only_generics_spec().2)
            }),
            r@ == old(self).generics_part().0,
            *final(self) == old(self).generics_part().1,
            appended(old(diags)@, final(diags)@, old(self).generics_part().2),
    {
        proof { assert(old(diags)@.subrange(0, old(diags)@.len() as int) =~= old(diags)@); }
        match self.delimited('[') {
            None => Vec::new(),
            Some(t) => {
                let mut sub = self.sub_parser(t);
                sub.parse_only_generic_parameters(diags)
            },
        }
    }

    /// Parses a list of parameters delimited by `()`.
    pub fn parse_parameter_list(&mut self, diags: &mut Vec<Diagnostic>) -> (r: Option<Vec<LocalVariableDecl>>)
        requires
            old(self).wf(),
        ensures
            final(self).wf(),
            final(self).advanced_from(old(self)),
            extends(old(diags)@, final(diags)@),
            r is Some <==> ({
                let k = old(self).next();
                k + 1 < old(self).end && old(self).toks()[k] == Token::Delimiter('(')
                    && old(self).toks()[k + 1] is Tree
            }),
            r is Some ==> forall|i: int| 0 <= i < r->0@.len() ==> (#[trigger] r->0@[i]).span_is_union(),
            r is None ==> *final(self) == *old(self) && final(diags)@ == old(diags)@,
            old(self).delimited_next('(') ==> ({
                let sub = old(self).sub_at(old(self).next() + 1);
                &&& final(self).pos == old(self).after_tree(old(self).tree_after_next())
                &&& r->0@ == sub.only_params_spec().0
                &&& appended(old(diags)@, final(diags)@, sub.only_params_spec().2)
            }),
            r is Some <==> old(self).params_part().0 is Some,
            r is Some ==> r->0@ == old(self).params_part().0->0,
            *final(self) == old(self).params_part().1,
            appended(old(diags)@, final(diags)@, old(self).params_part().2),
    {
        proof { assert(old(diags)@.subrange(0, old(diags)@.len() as int) =~= old(diags)@); }
        match self.delimited('(') {
            None => None,
            Some(t) => {
                let mut sub = self.sub_parser(t);
                Some(sub.parse_only_parameters(diags))
            },
        }
    }

    /// Parses an optional return type: `-> Type`.
    pub fn parse_return_type(&mut self, diags: &mut Vec<Diagnostic>) -> (r: Option<ReturnTy>)
        requires
            old(self).wf(),
        ensures
            final(self).wf(),
            final(self).advanced_from(old(self)),
            extends(old(diags)@, final(diags)@),
            r is Some ==> final(self).consumed(old(self), r->0.span) && r->0.span.end == final(self).last_end,
            ({
                let k = old(self).next();
                let arrow = k + 1 < old(self).end && old(self).toks()[k] == Token::Op('-') && old(self).toks()[k + 1] == Token::Op('>');
                &&& !arrow ==> r is None && *final(self) == *old(self) && final(diags)@ == old(diags)@
                &&& arrow ==> r is Some && r->0.span.start == old(self).spans()[k].start
                &&& arrow && old(self).name_after(k + 1) ==> r->0.ty == Some(old(self).name_at(skip_ws(old(self).toks(), k + 2, old(self).end as int)))
                    && r->0.span.end == r->0.ty->0.span.end && final(diags)@ == old(diags)@
                &&& arrow && !old(self).name_after(k + 1) ==> r->0.ty is None && r->0.span.end == old(self).spans()[k + 1].end
                    && final(diags)@.len() == old(diags)@.len() + 1
                    && final(diags)@.last().message@ == "expected return type after `->`"@
            }),
            r == old(self).return_spec().0,
            *final(self) == old(self).return_spec().1,
            appended(old(diags)@, final(diags)@, old(self).return_spec().2),
    {
        proof { lemma_appended_none(old(diags)@); }
        proof { assert(old(diags)@.subrange(0, old(diags)@.len() as int) =~= old(diags)@); }
        let k = self.peek_index();
        if k < self.end && k + 1 < self.end {
            if let (Token::Op('-'), Token::Op('>')) = (self.file.tokens[k], self.file.tokens[k + 1]) {
                let start = self.file.spans[k].start;
                proof {
                    lemma_span_wf(self.toks(), self.spans(), k as int);
                    assert(self.last_end.value() <= self.spans()[k as int].start.value());
                }
                self.consume(k);
                self.consume(k + 1);
                if let Some(ty) = self.parse_name() {
                    return Some(ReturnTy { ty: Some(ty), span: Span { start, end: ty.span.end } });
                }
                let span = self.current_span();
                let d = Diagnostic::new("expected return type after `->`", span);
                proof { lemma_appended_push(diags@, d); }
                diags.push(d);
                assert(final(diags)@.subrange(0, old(diags)@.len() as int) =~= old(diags)@);
                return Some(ReturnTy { ty: None, span: Span { start, end: self.last_end } });
            }
        }
        None
    }

    /// Reports `message` at the next token.
    fn report(&self, message: &str, diags: &mut Vec<Diagnostic>)
        requires
            self.wf(),
        ensures
            extends(old(diags)@, final(diags)@),
            final(diags)@.len() == old(diags)@.len() + 1,
            final(diags)@.last().message@ == message@,
            appended(old(diags)@, final(diags)@, self.report_spec(message@)),
    {
        let span = self.current_span();
        let d = Diagnostic::new(message, span);
        proof { lemma_appended_push(diags@, d); }
        diags.push(d);
        assert(final(diags)@.subrange(0, old(diags)@.len() as int) =~= old(diags)@);
    }

    /// Parses the rest of a function once its effect keyword, if any, is consumed:
    /// `fn name[generics](params) -> Ret { body }`. `start` is where the item began.
    fn parse_fn(&mut self, effect: Option<EffectKeyword>, start: Offset, diags: &mut Vec<Diagnostic>) -> (r: Option<Item>)
        requires
            old(self).wf(),
            start.value() <= old(self).last_end.value() || (old(self).keyword_next(old(self).kw.fn_kw)
                && start.value() <= old(self).spans()[old(self).next()].start.value()),
        ensures
            r is Some ==> final(self).pos > old(self).pos,
            final(self).wf(),
            final(self).advanced_from(old(self)),
            extends(old(diags)@, final(diags)@),
            r is Some ==> r->0.spec_span().start == start && r->0.spec_span().end == final(self).last_end
                && r->0.spec_span().wf(),
            !old(self).keyword_next(old(self).kw.fn_kw) ==> r is None && *final(self) == *old(self)
                && final(diags)@ == old(diags)@,
            old(self).keyword_next(old(self).kw.fn_kw) ==> r is Some || final(diags)@.len() > old(diags)@.len(),
            old(self).simple_fn_next() ==> r is Some,
            r is Some <==> old(self).fn_spec(effect, start).0 is Some,
            r is Some ==> iview(r->0) == old(self).fn_spec(effect, start).0->0,
            *final(self) == old(self).fn_spec(effect, start).1,
            appended(old(diags)@, final(diags)@, old(self).fn_spec(effect, start).2),
    {
        proof { assert(old(diags)@.subrange(0, old(diags)@.len() as int) =~= old(diags)@); }
        proof { lemma_skip_ws_bounds(self.toks(), self.pos as int, self.end as int); }
        proof { lemma_appended_none(old(diags)@); }
        let ghost d0 = diags@;
        let w = self.kw.fn_kw;
        if self.eat_keyword(w).is_none() {
            return None;
        }
        let name = match self.parse_name() {
            Some(n) => n,
            None => {
                self.report("expected function name after `fn`", diags);
                return None;
            },
        };
        let ghost d1 = diags@;
        let ghost p2 = *self;
        let generics = self.parse_generic_parameters(diags);
        let ghost d2 = diags@;
        let ghost p3 = *self;
        let params = match self.parse_parameter_list(diags) {
            Some(p) => p,
            None => {
                self.report("expected parameters", diags);
                Vec::new()
            },
        };
        proof {
            lemma_extends_trans(d1, d2, diags@);
            lemma_appended_trans(d1, d2, diags@, p2.generics_part().2, p3.params_or_report("expected parameters"@).2);
        }
        let ghost d3 = diags@;
        let ghost p4 = *self;
        let return_ty = self.parse_return_type(diags);
        proof {
            lemma_extends_trans(d1, d3, diags@);
            lemma_appended_trans(d1, d3, diags@, p2.generics_part().2 + p3.params_or_report("expected parameters"@).2, p4.return_spec().2);
        }
        let ghost d4 = diags@;
        let ghost p5 = *self;
        match self.delimited('{') {
            Some(b) => {
                let body = self.file.tokens[b].tree().unwrap();
                let span = Span { start, end: self.last_end };
                let r = Some(Item::Function(FnDecl { effect, name, generics, params, return_ty, body, span }));
                proof {
                    assert(d0 == d1);
                    assert(params@ == p3.params_or_report("expected parameters"@).0);
                }
                r
            },
            None => {
                self.report("expected function body", diags);
                proof {
                    lemma_extends_trans(d1, d4, diags@);
                    lemma_appended_trans(d1, d4, diags@,
                        p2.generics_part().2 + p3.params_or_report("expected parameters"@).2 + p4.return_spec().2,
                        p5.report_spec("expected function body"@));
                }
                None
            },
        }
    }

    /// Parses the rest of a class: `class name[generics](fields)`.
    fn parse_class(&mut self, diags: &mut Vec<Diagnostic>) -> (r: Option<Item>)
        requires
            old(self).wf(),
        ensures
            final(self).wf(),
            final(self).advanced_from(old(self)),
            extends(old(diags)@, final(diags)@),
            r is Some ==> final(self).pos > old(self).pos,
            r is Some ==> r->0.spec_span().start == old(self).spans()[old(self).next()].start
                && r->0.spec_span().end == final(self).last_end
                && final(self).consumed(old(self), r->0.spec_span()),
            !old(self).keyword_next(old(self).kw.class_kw) ==> r is None && *final(self) == *old(self)
                && final(diags)@ == old(diags)@,
            old(self).keyword_next(old(self).kw.class_kw) ==> r is Some || final(diags)@.len() > old(diags)@.len(),
            old(self).keyword_next(old(self).kw.class_kw) && old(self).name_after(old(self).next()) ==> r is Some,
            r is Some <==> old(self).class_spec().0 is Some,
            r is Some ==> iview(r->0) == old(self).class_spec().0->0,
            *final(self) == old(self).class_spec().1,
            appended(old(diags)@, final(diags)@, old(self).class_spec().2),
    {
        proof { lemma_appended_none(old(diags)@); }
        proof { lemma_skip_ws_bounds(self.toks(), self.pos as int, self.end as int); }
        proof { assert(old(diags)@.subrange(0, old(diags)@.len() as int) =~= old(diags)@); }
        proof { lemma_skip_ws_bounds(self.toks(), self.pos as int, self.end as int); }
        let w = self.kw.class_kw;
        let kw_span = match self.eat_keyword(w) {
            Some(s) => s,
            None => { return None; },
        };
        let name = match self.parse_name() {
            Some(n) => n,
            None => {
                self.report("expected class name after `class`", diags);
                return None;
            },
        };
        let ghost d1 = diags@;
        let ghost p2 = *self;
        let generics = self.parse_generic_parameters(diags);
        let ghost d2 = diags@;
        let ghost p3 = *self;
        let fields = match self.parse_parameter_list(diags) {
            Some(p) => p,
            None => {
                self.report("expected fields", diags);
                Vec::new()
            },
        };
        proof {
            lemma_extends_trans(d1, d2, diags@);
            lemma_appended_trans(d1, d2, diags@, p2.generics_part().2, p3.params_or_report("expected fields"@).2);
        }
        let span = Span { start: kw_span.start, end: self.last_end };
        Some(Item::Class(Class { name, generics, fields, span }))
    }

    /// Parses one item: a function, with an optional effect keyword, or a class.
    pub fn parse_item(&mut self, diags: &mut Vec<Diagnostic>) -> (r: Option<Item>)
        requires
            old(self).wf(),
        ensures
            final(self).wf(),
            final(self).advanced_from(old(self)),
            extends(old(diags)@, final(diags)@),
            r is Some ==> final(self).consumed(old(self), r->0.spec_span())
                && r->0.spec_span().start == old(self).spans()[old(self).next()].start
                && final(self).pos > old(self).pos,
            !old(self).keyword_next(old(self).kw.fn_kw) && !old(self).keyword_next(old(self).kw.class_kw)
                && !old(self).keyword_next(old(self).kw.atomic_kw) && !old(self).keyword_next(old(self).kw.async_kw)
                ==> r is None && *final(self) == *old(self) && final(diags)@ == old(diags)@,
            old(self).keyword_next(old(self).kw.fn_kw) || old(self).keyword_next(old(self).kw.atomic_kw)
                || old(self).keyword_next(old(self).kw.async_kw)
                ==> r is Some || final(diags)@.len() > old(diags)@.len(),
            old(self).item_next() ==> r is Some,
            r is Some <==> old(self).item_spec().0 is Some,
            r is Some ==> iview(r->0) == old(self).item_spec().0->0,
            *final(self) == old(self).item_spec().1,
            appended(old(diags)@, final(diags)@, old(self).item_spec().2),
    {
        reveal(CodeParser::item_spec);
        proof {
            assert(old(diags)@.subrange(0, old(diags)@.len() as int) =~= old(diags)@);
            lemma_skip_ws_bounds(self.toks(), self.pos as int, self.end as int);
        }
        let effect = self.parse_effect();
        match effect {
            Some(e) => {
                let start = match e {
                    EffectKeyword::Atomic(s) => s.start,
                    EffectKeyword::Async(s) => s.start,
                };
                let mid = self.pos;
                let ghost p1 = *self;
                let item = self.parse_fn(effect, start, diags);
                if item.is_none() && self.pos == mid {
                    let ghost d1 = diags@;
                    let ghost p2 = *self;
                    self.report("expected `fn` after effect keyword", diags);
                    proof {
                        lemma_extends_trans(old(diags)@, d1, diags@);
                        lemma_appended_trans(old(diags)@, d1, diags@, p1.fn_spec(effect, start).2,
                            p2.report_spec("expected `fn` after effect keyword"@));
                    }
                }
                item
            },
            None => {
                if self.has_more_tokens() {
                    let k = self.peek_index();
                    proof { lemma_span_wf(self.toks(), self.spans(), k as int); }
                    if let Token::Alphabetic(w) = self.file.tokens[k] {
                        if w == self.kw.fn_kw {
                            assert(self.last_end.value() <= self.spans()[k as int].start.value());
                            let start = self.file.spans[k].start;
                            return self.parse_fn(None, start, diags);
                        }
                    }
                }
                self.parse_class(diags)
            },
        }
    }

    /// Moves past the next token; past the whole region when it opens one.
    fn skip_token(&mut self)
        requires
            old(self).wf(),
            old(self).next() < old(self).end,
        ensures
            final(self).wf(),
            final(self).advanced_from(old(self)),
            final(self).pos > old(self).pos,
            *final(self) == old(self).skip_spec(),
    {
        proof { lemma_skip_ws_bounds(self.toks(), self.pos as int, self.end as int); }
        let k = self.peek_index();
        match self.file.tokens[k] {
            Token::Tree(_) => {
                self.pos = k + 1;
            },
            Token::Delimiter(c) => {
                if self.delimited(c).is_none() {
                    self.consume(k);
                }
            },
            _ => {
                self.consume(k);
            },
        }
    }

    /// Parses items up to the end of the region. Tokens that start no item are
    /// reported once per run and skipped.
    #[verifier::rlimit(60)]
    pub fn parse_items(&mut self, diags: &mut Vec<Diagnostic>) -> (r: Vec<Item>)
        requires
            old(self).wf(),
        ensures
            final(self).wf(),
            final(self).advanced_from(old(self)),
            extends(old(diags)@, final(diags)@),
            forall|i: int| 0 <= i < r@.len() ==> final(self).consumed(old(self), (#[trigger] r@[i]).spec_span()),
            forall|i: int, j: int| 0 <= i < j < r@.len()
                ==> (#[trigger] r@[i]).spec_span().end.value() <= (#[trigger] r@[j]).spec_span().start.value(),
            old(self).next() == old(self).end ==> r@.len() == 0 && final(diags)@ == old(diags)@,
            final(self).next() == final(self).end,
            old(self).item_next() ==> r@.len() >= 1,
            iviews(r@) == old(self).items_spec(false).0,
            *final(self) == old(self).items_spec(false).1,
            appended(old(diags)@, final(diags)@, old(self).items_spec(false).2),
    {
        reveal(CodeParser::items_spec);
        let mut items: Vec<Item> = Vec::new();
        let ghost mut ran = false;
        let ghost d0 = diags@;
        let ghost start_state = *self;
        let ghost sp = start_state.items_spec(false);
        let ghost mut added: Seq<DiagView> = Seq::empty();
        let mut reported = false;
        proof {
            assert(d0.subrange(0, d0.len() as int) =~= d0);
            lemma_appended_none(d0);
            assert(iviews(items@) + sp.0 =~= sp.0);
            assert(added + sp.2 =~= sp.2);
        }
        while self.has_more_tokens()
            invariant
                self.wf(),
                self.advanced_from(&start_state),
                extends(d0, diags@),
                start_state == *old(self),
                d0 == old(diags)@,
                start_state.next() == start_state.end ==> *self == start_state && diags@ == d0 && items@.len() == 0,
                !ran ==> *self == start_state,
                ran && start_state.item_next() ==> items@.len() >= 1,
                forall|i: int| 0 <= i < items@.len() ==> self.consumed(&start_state, (#[trigger] items@[i]).spec_span()),
                forall|i: int, j: int| 0 <= i < j < items@.len()
                    ==> (#[trigger] items@[i]).spec_span().end.value() <= (#[trigger] items@[j]).spec_span().start.value(),
                sp == start_state.items_spec(false),
                appended(d0, diags@, added),
                sp.0 == iviews(items@) + self.items_spec(reported).0,
                sp.1 == self.items_spec(reported).1,
                sp.2 == added + self.items_spec(reported).2,
            decreases self.end - self.pos,
        {
            let ghost before = *self;
            let ghost d1 = diags@;
            let ghost v1 = items@;
            let ghost r0 = reported;
            let ghost added1 = added;
            proof { reveal(CodeParser::items_spec); }
            let ghost hs = before.items_spec(r0);
            let ghost is = before.item_spec();
            proof { lemma_skip_ws_bounds(before.toks(), before.pos as int, before.end as int); }
            let p = self.pos;
            let item = self.parse_item(diags);
            proof {
                lemma_extends_trans(d0, d1, diags@);
                lemma_appended_trans(d0, d1, diags@, added1, is.2);
                added = added1 + is.2;
                ran = true;
            }
            match item {
                Some(it) => {
                    proof {
                        assert forall|i: int| 0 <= i < v1.len() implies v1[i].spec_span().end.value() <= it.spec_span().start.value() by {
                            assert(before.consumed(&start_state, v1[i].spec_span()));
                        }
                    }
                    items.push(it);
                    reported = false;
                    proof {
                        assert(iviews(items@) =~= iviews(v1).push(iview(it)));
                        let rest = self.items_spec(false);
                        assert(hs == (seq![is.0->0] + rest.0, rest.1, is.2 + rest.2));
                        assert(sp.0 =~= iviews(items@) + rest.0);
                        assert(sp.2 =~= added + rest.2);
                    }
                },
                None => {
                    if self.pos == p {
                        let ghost p1 = *self;
                        let ghost d2 = diags@;
                        let ghost added2 = added;
                        if !reported {
                            self.report("expected an item", diags);
                            proof {
                                lemma_extends_trans(d0, d2, diags@);
                                lemma_appended_trans(d0, d2, diags@, added2, p1.report_spec("expected an item"@));
                                added = added2 + p1.report_spec("expected an item"@);
                            }
                            reported = true;
                        }
                        self.skip_token();
                        proof {
                            let rest = self.items_spec(true);
                            let dr = if r0 { Seq::<DiagView>::empty() } else { p1.report_spec("expected an item"@) };
                            assert(hs == (rest.0, rest.1, is.2 + dr + rest.2));
                            assert(added =~= added1 + is.2 + dr);
                            assert(sp.2 =~= added + rest.2);
                        }
                    } else {
                        proof {
                            let rest = self.items_spec(r0);
                            assert(hs == (rest.0, rest.1, is.2 + rest.2));
                            assert(sp.2 =~= added + rest.2);
                        }
                    }
                },
            }
        }
        proof {
            lemma_skip_ws_bounds(self.toks(), self.pos as int, self.end as int);
            assert(sp.0 =~= iviews(items@));
            assert(sp.2 =~= added);
        }
        items
    }
}

} // verus!
