use vstd::prelude::*;
use vstd::string::*;
use crate::span::{Offset, Span};
use crate::token::{char_width, closing_delimiter, closing_of, is_closing, is_opening, lemma_text_width_concat, lemma_text_width_prefix, str_width, text_width, utf8_width, Token, TokenTree};
use crate::word::{Interner, Word};

verus! {

/// What `char::is_alphanumeric` says of a character (Unicode's Alphabetic or Numeric).
pub uninterp spec fn alphanumeric(c: char) -> bool;

/// Unicode's White_Space property, which `char::is_whitespace` reports.
pub open spec fn whitespace(c: char) -> bool {
    let v = c as u32;
    (0x9 <= v && v <= 0xD) || v == 0x20 || v == 0x85 || v == 0xA0 || v == 0x1680
        || (0x2000 <= v && v <= 0x200A) || v == 0x2028 || v == 0x2029 || v == 0x202F
        || v == 0x205F || v == 0x3000
}

/// Relies on `char::is_alphanumeric`, a function of the character alone.
#[verifier::external_body]
fn char_is_alphanumeric(c: char) -> (r: bool)
    ensures
        r == alphanumeric(c),
{
    c.is_alphanumeric()
}

/// Whether `c` has Unicode's White_Space property.
pub(crate) fn char_is_whitespace(c: char) -> (r: bool)
    ensures
        r == whitespace(c),
{
    let v = c as u32;
    (0x9 <= v && v <= 0xD) || v == 0x20 || v == 0x85 || v == 0xA0 || v == 0x1680
        || (0x2000 <= v && v <= 0x200A) || v == 0x2028 || v == 0x2029 || v == 0x202F
        || v == 0x205F || v == 0x3000
}

pub open spec fn is_digit(c: char) -> bool {
    '0' <= c && c <= '9'
}

/// A quote, a delimiter or whitespace: never part of a word.
pub open spec fn is_structural(c: char) -> bool {
    c == '"' || is_opening(c) || is_closing(c) || whitespace(c)
}

pub open spec fn is_ident_continue(c: char) -> bool {
    (c == '_' || alphanumeric(c)) && !is_structural(c)
}

fn ident_char(c: char) -> (r: bool)
    ensures
        r == is_ident_continue(c),
{
    let structural = c == '"' || c == '(' || c == '[' || c == '{' || c == ')' || c == ']' || c == '}'
        || char_is_whitespace(c);
    !structural && (c == '_' || char_is_alphanumeric(c))
}

fn ident_start_char(c: char) -> (r: bool)
    ensures
        r == is_ident_start(c),
{
    ident_char(c) && !('0' <= c && c <= '9')
}

pub open spec fn is_ident_start(c: char) -> bool {
    is_ident_continue(c) && !is_digit(c)
}

pub open spec fn is_op_char(c: char) -> bool {
    c == '+' || c == '-' || c == '*' || c == '/' || c == '%' || c == '=' || c == '<'
        || c == '>' || c == '!' || c == '&' || c == '|' || c == '^' || c == '~' || c == '?'
        || c == ':' || c == ';' || c == ',' || c == '.' || c == '@'
}

fn op_char(c: char) -> (r: bool)
    ensures
        r == is_op_char(c),
{
    c == '+' || c == '-' || c == '*' || c == '/' || c == '%' || c == '=' || c == '<'
        || c == '>' || c == '!' || c == '&' || c == '|' || c == '^' || c == '~' || c == '?'
        || c == ':' || c == ';' || c == ',' || c == '.' || c == '@'
}

/// The characters `a .. b` are a run of identifier characters that cannot be
/// extended.
pub open spec fn ident_run(text: Seq<char>, a: int, b: int) -> bool {
    &&& forall|k: int| a <= k < b ==> is_ident_continue(#[trigger] text[k])
    &&& b < text.len() ==> !is_ident_continue(text[b])
}

/// The characters `a .. b` are a run of digits and underscores that cannot be
/// extended.
pub open spec fn number_run(text: Seq<char>, a: int, b: int) -> bool {
    &&& forall|k: int| a <= k < b ==> #[trigger] is_digit(text[k]) || text[k] == '_'
    &&& b < text.len() ==> !(is_digit(text[b]) || text[b] == '_')
}

/// The characters `a .. b` are a string literal: a quote, then up to the next
/// quote, or to the end of the text when none comes.
pub open spec fn string_run(text: Seq<char>, a: int, b: int) -> bool {
    &&& 0 <= a < b <= text.len()
    &&& text[a] == '"'
    &&& forall|k: int| a < k < b - 1 ==> #[trigger] text[k] != '"'
    &&& (b - 1 > a && text[b - 1] == '"') || (b == text.len() && (b - 1 == a || text[b - 1] != '"'))
}

/// A character that starts no word, number, string or delimiter.
pub open spec fn is_single(c: char) -> bool {
    !is_ident_start(c) && !is_digit(c) && c != '"' && !is_opening(c) && !is_closing(c)
}

/// `tok` is what the characters `a .. b` of `text` lex to.
pub open spec fn token_matches_text(tok: Token, text: Seq<char>, a: int, b: int, words: &Interner) -> bool {
    &&& 0 <= a <= b <= text.len()
    &&& match tok {
        Token::Tree(_) => a == b,
        Token::Alphabetic(w) => a < b && is_ident_start(text[a]) && ident_run(text, a, b)
            && words.holds(w) && words.text_of(w) == text.subrange(a, b) && !(b < text.len() && text[b] == '"'),
        Token::Prefix(w) => a < b && is_ident_start(text[a]) && ident_run(text, a, b)
            && words.holds(w) && words.text_of(w) == text.subrange(a, b) && b < text.len() && text[b] == '"',
        Token::Number(w) => a < b && is_digit(text[a]) && number_run(text, a, b)
            && words.holds(w) && words.text_of(w) == text.subrange(a, b),
        Token::StringLiteral(w) => string_run(text, a, b) && words.holds(w)
            && words.text_of(w) == text.subrange(a, b) && !text.subrange(a, b).contains('{'),
        Token::FormatString(w) => string_run(text, a, b) && words.holds(w)
            && words.text_of(w) == text.subrange(a, b) && text.subrange(a, b).contains('{'),
        Token::Delimiter(c) => b == a + 1 && text[a] == c && (is_opening(c) || is_closing(c)),
        Token::Whitespace(c) => b == a + 1 && text[a] == c && is_single(c) && whitespace(c),
        Token::Op(c) => b == a + 1 && text[a] == c && is_single(c) && !whitespace(c) && is_op_char(c),
        Token::Unknown(c) => b == a + 1 && text[a] == c && (is_closing(c)
            || (is_single(c) && !whitespace(c) && !is_op_char(c))),
    }
}

/// The ranges follow one another from the start of the text up to `pos`.
pub open spec fn tiles_to(ranges: Seq<(int, int)>, pos: int) -> bool {
    &&& ranges.len() == 0 ==> pos == 0
    &&& ranges.len() > 0 ==> ranges[0].0 == 0 && ranges.last().1 == pos
    &&& forall|k: int| 0 <= k < ranges.len() - 1 ==> (#[trigger] ranges[k]).1 == ranges[k + 1].0
}

/// Each token is what its range of characters lexes to, and the ranges follow
/// one another from the start of the text up to `pos`.
pub open spec fn tokens_cover(toks: Seq<Token>, ranges: Seq<(int, int)>, text: Seq<char>, words: &Interner, pos: int) -> bool {
    &&& ranges.len() == toks.len()
    &&& tiles_to(ranges, pos)
    &&& forall|k: int| 0 <= k < toks.len() ==> token_matches_text(#[trigger] toks[k], text, ranges[k].0, ranges[k].1, words)
}

/// A table that covers a text keeps covering it as the interner grows.
pub proof fn lemma_file_covers_grow(file: &LexedFile, text: Seq<char>, a: &Interner, b: &Interner)
    requires
        file.covers(text, a),
        words_grow(a, b),
    ensures
        file.covers(text, b),
{
    lemma_cover_grow(file.tokens@, file.ranges@, text, a, b, text.len() as int);
}

proof fn lemma_cover_grow(toks: Seq<Token>, ranges: Seq<(int, int)>, text: Seq<char>, a: &Interner, b: &Interner, pos: int)
    requires
        tokens_cover(toks, ranges, text, a, pos),
        words_grow(a, b),
    ensures
        tokens_cover(toks, ranges, text, b, pos),
{
    assert forall|k: int| 0 <= k < toks.len() implies token_matches_text(#[trigger] toks[k], text, ranges[k].0, ranges[k].1, b) by {
        assert(token_matches_text(toks[k], text, ranges[k].0, ranges[k].1, a));
        if let Some(w) = toks[k].word_of() {
            assert(b.text_of(w) == a.text_of(w));
        }
    }
}

proof fn lemma_cover_push(toks: Seq<Token>, ranges: Seq<(int, int)>, text: Seq<char>, words: &Interner, pos: int, tok: Token, b: int)
    requires
        tokens_cover(toks, ranges, text, words, pos),
        token_matches_text(tok, text, pos, b, words),
    ensures
        tokens_cover(toks.push(tok), ranges.push((pos, b)), text, words, b),
{
    let t2 = toks.push(tok);
    let r2 = ranges.push((pos, b));
    assert forall|k: int| 0 <= k < t2.len() implies token_matches_text(#[trigger] t2[k], text, r2[k].0, r2[k].1, words) by {
        if k < toks.len() {
            assert(t2[k] == toks[k] && r2[k] == ranges[k]);
        }
    }
    assert forall|k: int| 0 <= k < r2.len() - 1 implies (#[trigger] r2[k]).1 == r2[k + 1].0 by {
        if k < ranges.len() - 1 {
            assert(r2[k] == ranges[k] && r2[k + 1] == ranges[k + 1]);
        }
    }
}

proof fn lemma_cover_set_tree(toks: Seq<Token>, ranges: Seq<(int, int)>, text: Seq<char>, words: &Interner, pos: int, k: int, tree: TokenTree)
    requires
        tokens_cover(toks, ranges, text, words, pos),
        0 <= k < toks.len(),
        toks[k] is Tree,
    ensures
        tokens_cover(toks.update(k, Token::Tree(tree)), ranges, text, words, pos),
{
    let t2 = toks.update(k, Token::Tree(tree));
    assert forall|j: int| 0 <= j < t2.len() implies token_matches_text(#[trigger] t2[j], text, ranges[j].0, ranges[j].1, words) by {
        assert(token_matches_text(toks[j], text, ranges[j].0, ranges[j].1, words));
    }
}

/// The trees still open after token `k`, given those open before it.
pub open spec fn next_stack(tok: Token, k: int, st: Seq<usize>) -> Seq<usize> {
    match tok {
        Token::Tree(_) => st.push(k as usize),
        Token::Delimiter(c) => if is_closing(c) { st.drop_last() } else { st },
        _ => st,
    }
}

/// `stacks[k]` lists the trees still open before token `k`, innermost last.
pub open spec fn stacks_follow(toks: Seq<Token>, stacks: Seq<Seq<usize>>) -> bool {
    &&& stacks.len() == toks.len()
    &&& toks.len() > 0 ==> stacks[0] == Seq::<usize>::empty()
    &&& forall|k: int| 0 <= k < toks.len() - 1 ==> #[trigger] stacks[k + 1] == next_stack(toks[k], k, stacks[k])
}

/// A closing delimiter closes the innermost open tree exactly when it matches
/// that tree's opening delimiter; otherwise it is an unknown character.
pub open spec fn closers_match(toks: Seq<Token>, stacks: Seq<Seq<usize>>) -> bool {
    forall|k: int| 0 <= k < toks.len() && is_closer_token(#[trigger] toks[k]) ==> {
        let st = stacks[k];
        let m = st.last() as int;
        &&& toks[k] is Delimiter ==> st.len() > 0 && 1 <= m < k && toks[m] is Tree && !toks[m]->Tree_0.open
            && toks[m]->Tree_0.end() == k && toks[m - 1] is Delimiter
            && closing_of(toks[m - 1]->Delimiter_0) == toks[k]->Delimiter_0
        &&& toks[k] is Unknown ==> st.len() == 0 || (1 <= m < k && toks[m - 1] is Delimiter
            && closing_of(toks[m - 1]->Delimiter_0) != toks[k]->Unknown_0)
    }
}

/// A delimiter or unknown token holding a closing delimiter character.
pub open spec fn is_closer_token(tok: Token) -> bool {
    match tok {
        Token::Delimiter(c) => is_closing(c),
        Token::Unknown(c) => is_closing(c),
        _ => false,
    }
}

/// The stacks follow the tokens and end in `st`, and every closer was read
/// against the innermost open tree.
pub open spec fn traced_to(toks: Seq<Token>, stacks: Seq<Seq<usize>>, st: Seq<usize>) -> bool {
    &&& stacks_follow(toks, stacks)
    &&& toks.len() == 0 ==> st == Seq::<usize>::empty()
    &&& toks.len() > 0 ==> st == next_stack(toks.last(), toks.len() - 1, stacks.last())
    &&& closers_match(toks, stacks)
}

proof fn lemma_trace_open(toks: Seq<Token>, stacks: Seq<Seq<usize>>, st: Seq<usize>, c: char, tree: TokenTree)
    requires
        traced_to(toks, stacks, st),
        is_opening(c),
    ensures
        traced_to(toks.push(Token::Delimiter(c)).push(Token::Tree(tree)), stacks.push(st).push(st),
            st.push((toks.len() + 1) as usize)),
{
    let t2 = toks.push(Token::Delimiter(c)).push(Token::Tree(tree));
    let s2 = stacks.push(st).push(st);
    assert forall|k: int| 0 <= k < t2.len() - 1 implies #[trigger] s2[k + 1] == next_stack(t2[k], k, s2[k]) by {
        if k < toks.len() - 1 {
            assert(s2[k + 1] == stacks[k + 1] && t2[k] == toks[k] && s2[k] == stacks[k]);
        } else if k == toks.len() - 1 {
            assert(t2[k] == toks[k] && s2[k] == stacks[k]);
        }
    }
    assert forall|k: int| 0 <= k < t2.len() && is_closer_token(#[trigger] t2[k]) implies ({
        let sk = s2[k];
        let m = sk.last() as int;
        &&& t2[k] is Delimiter ==> sk.len() > 0 && 1 <= m < k && t2[m] is Tree && !t2[m]->Tree_0.open
            && t2[m]->Tree_0.end() == k && t2[m - 1] is Delimiter
            && closing_of(t2[m - 1]->Delimiter_0) == t2[k]->Delimiter_0
        &&& t2[k] is Unknown ==> sk.len() == 0 || (1 <= m < k && t2[m - 1] is Delimiter
            && closing_of(t2[m - 1]->Delimiter_0) != t2[k]->Unknown_0)
    }) by {
        assert(k < toks.len());
        assert(is_closer_token(toks[k]));
        let m = stacks[k].last() as int;
        if toks[k] is Delimiter || (toks[k] is Unknown && stacks[k].len() > 0) {
            assert(t2[m] == toks[m] && t2[m - 1] == toks[m - 1]);
        }
    }
}

proof fn lemma_trace_close(toks: Seq<Token>, stacks: Seq<Seq<usize>>, st: Seq<usize>, c: char, closed: TokenTree)
    requires
        traced_to(toks, stacks, st),
        st.len() > 0,
        1 <= st.last() < toks.len(),
        toks[st.last() as int] is Tree,
        toks[st.last() as int]->Tree_0.open,
        toks[st.last() - 1] is Delimiter,
        closing_of(toks[st.last() - 1]->Delimiter_0) == c,
        is_closing(c),
        !closed.open,
        closed.end() == toks.len(),
    ensures
        traced_to(toks.update(st.last() as int, Token::Tree(closed)).push(Token::Delimiter(c)), stacks.push(st), st.drop_last()),
{
    let top = st.last() as int;
    let t1 = toks.update(top, Token::Tree(closed));
    let t2 = t1.push(Token::Delimiter(c));
    let s2 = stacks.push(st);
    assert forall|k: int| 0 <= k < t2.len() - 1 implies #[trigger] s2[k + 1] == next_stack(t2[k], k, s2[k]) by {
        if k < toks.len() - 1 {
            assert(s2[k + 1] == stacks[k + 1] && s2[k] == stacks[k]);
        } else {
            assert(s2[k] == stacks[k]);
        }
    }
    assert forall|k: int| 0 <= k < t2.len() && is_closer_token(#[trigger] t2[k]) implies ({
        let sk = s2[k];
        let m = sk.last() as int;
        &&& t2[k] is Delimiter ==> sk.len() > 0 && 1 <= m < k && t2[m] is Tree && !t2[m]->Tree_0.open
            && t2[m]->Tree_0.end() == k && t2[m - 1] is Delimiter
            && closing_of(t2[m - 1]->Delimiter_0) == t2[k]->Delimiter_0
        &&& t2[k] is Unknown ==> sk.len() == 0 || (1 <= m < k && t2[m - 1] is Delimiter
            && closing_of(t2[m - 1]->Delimiter_0) != t2[k]->Unknown_0)
    }) by {
        if k < toks.len() {
            assert(t2[k] == toks[k]);
            assert(is_closer_token(toks[k]));
            let m = stacks[k].last() as int;
            if toks[k] is Delimiter {
                assert(m != top);
                assert(t2[m] == toks[m] && t2[m - 1] == toks[m - 1]);
            } else if stacks[k].len() > 0 {
                assert(t2[m - 1] == toks[m - 1]);
            }
        } else {
            assert(s2[k] == st);
            assert(t2[top] == Token::Tree(closed));
            assert(t2[top - 1] == toks[top - 1]);
        }
    }
}

proof fn lemma_trace_set_open(toks: Seq<Token>, stacks: Seq<Seq<usize>>, i: int, tree: TokenTree)
    requires
        stacks_follow(toks, stacks),
        closers_match(toks, stacks),
        0 <= i < toks.len(),
        toks[i] is Tree,
        toks[i]->Tree_0.open,
    ensures
        stacks_follow(toks.update(i, Token::Tree(tree)), stacks),
        closers_match(toks.update(i, Token::Tree(tree)), stacks),
{
    let t2 = toks.update(i, Token::Tree(tree));
    assert forall|k: int| 0 <= k < t2.len() - 1 implies #[trigger] stacks[k + 1] == next_stack(t2[k], k, stacks[k]) by {
        assert(stacks[k + 1] == next_stack(toks[k], k, stacks[k]));
    }
    assert forall|k: int| 0 <= k < t2.len() && is_closer_token(#[trigger] t2[k]) implies ({
        let sk = stacks[k];
        let m = sk.last() as int;
        &&& t2[k] is Delimiter ==> sk.len() > 0 && 1 <= m < k && t2[m] is Tree && !t2[m]->Tree_0.open
            && t2[m]->Tree_0.end() == k && t2[m - 1] is Delimiter
            && closing_of(t2[m - 1]->Delimiter_0) == t2[k]->Delimiter_0
        &&& t2[k] is Unknown ==> sk.len() == 0 || (1 <= m < k && t2[m - 1] is Delimiter
            && closing_of(t2[m - 1]->Delimiter_0) != t2[k]->Unknown_0)
    }) by {
        assert(t2[k] == toks[k]);
        assert(is_closer_token(toks[k]));
    }
}

/// The token table of one file. `spans[i]` is the byte range of `tokens[i]`; for a
/// tree token it is the range of the tree's contents. `root` covers the whole table.
pub struct LexedFile {
    pub tokens: Vec<Token>,
    pub spans: Vec<Span>,
    pub root: TokenTree,
    /// The characters `ranges[i].0 .. ranges[i].1` of the source are what
    /// `tokens[i]` was lexed from; a tree token has an empty range.
    pub ranges: Ghost<Seq<(int, int)>>,
    /// `stacks[i]` lists the trees still open before `tokens[i]`, innermost last.
    pub stacks: Ghost<Seq<Seq<usize>>>,
}

/// Every tree token directly follows its opening delimiter and starts right after
/// itself; a closed tree is followed by the matching closing delimiter, and an
/// open one runs to the end of the table.
pub open spec fn trees_balanced(toks: Seq<Token>) -> bool {
    &&& forall|i: int| 0 <= i < toks.len() && (#[trigger] toks[i]) is Tree ==> {
        let t = toks[i]->Tree_0;
        &&& 1 <= i
        &&& toks[i - 1] is Delimiter
        &&& is_opening(toks[i - 1]->Delimiter_0)
        &&& t.start == i + 1
        &&& t.end() <= toks.len()
        &&& !t.open ==> t.end() < toks.len() && toks[t.end()] == Token::Delimiter(closing_of(toks[i - 1]->Delimiter_0))
        &&& t.open ==> t.end() == toks.len()
    }
    &&& forall|i: int| 0 <= i < toks.len() && (#[trigger] toks[i]) is Delimiter && is_opening(toks[i]->Delimiter_0)
        ==> i + 1 < toks.len() && toks[i + 1] is Tree
}

/// The table while trees are still being closed: every tree follows its opening
/// delimiter, a closed tree is followed by its matching closing delimiter, and
/// `stack` holds, in increasing order, indices of trees still open.
pub open spec fn trees_in_progress(toks: Seq<Token>, stack: Seq<usize>) -> bool {
    &&& forall|m: int, p: int| 0 <= m < p < stack.len() ==> stack[m] < stack[p]
    &&& forall|m: int| 0 <= m < stack.len() ==> {
        let k = #[trigger] stack[m] as int;
        &&& 0 <= k < toks.len()
        &&& toks[k] is Tree
        &&& toks[k]->Tree_0.open
    }
    &&& forall|i: int| 0 <= i < toks.len() && (#[trigger] toks[i]) is Tree ==> {
        let t = toks[i]->Tree_0;
        &&& 1 <= i
        &&& toks[i - 1] is Delimiter
        &&& is_opening(toks[i - 1]->Delimiter_0)
        &&& t.start == i + 1
        &&& t.span.wf()
        &&& !t.open ==> t.end() < toks.len() && toks[t.end()] == Token::Delimiter(closing_of(toks[i - 1]->Delimiter_0))
    }
    &&& forall|i: int| 0 <= i < toks.len() && (#[trigger] toks[i]) is Delimiter && is_opening(toks[i]->Delimiter_0)
        ==> i + 1 < toks.len() && toks[i + 1] is Tree
}

/// Every token can report its width, and every word it names is held by `words`;
/// a token other than a tree spans exactly its width.
pub open spec fn tokens_measured(toks: Seq<Token>, spans: Seq<Span>, words: &Interner) -> bool {
    &&& toks.len() == spans.len()
    &&& forall|i: int| 0 <= i < toks.len() ==> (#[trigger] toks[i]).measurable(words)
    &&& forall|i: int| 0 <= i < toks.len() ==> (#[trigger] spans[i]).wf()
    &&& forall|i: int| 0 <= i < toks.len() && !(toks[i] is Tree)
        ==> (#[trigger] spans[i]).spec_len() == toks[i].width(words)
    &&& forall|i: int| 0 <= i < toks.len() && (#[trigger] toks[i]) is Tree ==> spans[i] == toks[i]->Tree_0.span
}

/// Tokens other than trees come in source order, without overlap.
pub open spec fn spans_ordered(toks: Seq<Token>, spans: Seq<Span>) -> bool {
    forall|i: int, j: int| 0 <= i < j < toks.len() && !(toks[i] is Tree) && !(toks[j] is Tree)
        ==> (#[trigger] spans[i]).end.value() <= (#[trigger] spans[j]).start.value()
}

/// Tokens other than trees end at or before `off`.
pub open spec fn spans_end_by(toks: Seq<Token>, spans: Seq<Span>, off: nat) -> bool {
    forall|i: int| 0 <= i < toks.len() && !(toks[i] is Tree) ==> (#[trigger] spans[i]).end.value() <= off
}

proof fn lemma_ordered_push(toks: Seq<Token>, spans: Seq<Span>, off: nat, tok: Token, span: Span)
    requires
        toks.len() == spans.len(),
        spans_ordered(toks, spans),
        spans_end_by(toks, spans, off),
        !(tok is Tree) ==> off <= span.start.value() && span.wf(),
    ensures
        spans_ordered(toks.push(tok), spans.push(span)),
        !(tok is Tree) ==> spans_end_by(toks.push(tok), spans.push(span), span.end.value()),
        tok is Tree ==> spans_end_by(toks.push(tok), spans.push(span), off),
{
    let t2 = toks.push(tok);
    let s2 = spans.push(span);
    assert forall|i: int| 0 <= i < toks.len() implies t2[i] == toks[i] && s2[i] == spans[i] by {}
}

#[verifier::rlimit(40)]
proof fn lemma_close(toks: Seq<Token>, spans: Seq<Span>, stack: Seq<usize>, words: &Interner, a: nat, b: nat, c: char, closed: TokenTree)
    requires
        trees_in_progress(toks, stack),
        tokens_measured(toks, spans, words),
        open_trees_start_by(toks, a),
        spans_ordered(toks, spans),
        spans_end_by(toks, spans, a),
        stack.len() > 0,
        ({
            let top = stack.last() as int;
            toks[top - 1] is Delimiter && closing_of(toks[top - 1]->Delimiter_0) == c
        }),
        is_closing(c),
        a + char_width(c) == b,
        closed.start == stack.last() + 1,
        closed.end() == toks.len(),
        closed.span.wf(),
        !closed.open,
    ensures
        ({
            let top = stack.last() as int;
            let d = Span { start: Offset(a as u32), end: Offset(b as u32) };
            let t2 = toks.update(top, Token::Tree(closed)).push(Token::Delimiter(c));
            let s2 = spans.update(top, closed.span).push(d);
            b <= u32::MAX ==> {
                &&& trees_in_progress(t2, stack.drop_last())
                &&& tokens_measured(t2, s2, words)
                &&& open_trees_start_by(t2, b)
                &&& spans_ordered(t2, s2)
                &&& spans_end_by(t2, s2, b)
            }
        }),
{
    let top = stack.last() as int;
    let d = Span { start: Offset(a as u32), end: Offset(b as u32) };
    let t1 = toks.update(top, Token::Tree(closed));
    let s1 = spans.update(top, closed.span);
    let t2 = t1.push(Token::Delimiter(c));
    let s2 = s1.push(d);
    let st = stack.drop_last();
    if b <= u32::MAX {
        assert(stack[stack.len() - 1] == top);
        assert forall|m: int| 0 <= m < st.len() implies st[m] == stack[m] && st[m] != top by {
            assert(stack[m] < stack[stack.len() - 1]);
        }
        assert forall|i: int| 0 <= i < toks.len() && i != top implies t2[i] == toks[i] && s2[i] == spans[i] by {}
        assert(t2[top] == Token::Tree(closed));
        assert(t2[top - 1] == toks[top - 1]);
        lemma_ordered_set_tree(toks, spans, a, top, closed, closed.span);
        lemma_ordered_push(t1, s1, a, Token::Delimiter(c), d);
        assert(trees_in_progress(t2, st));
        assert(tokens_measured(t2, s2, words));
    }
}

proof fn lemma_ordered_set_tree(toks: Seq<Token>, spans: Seq<Span>, off: nat, k: int, tree: TokenTree, span: Span)
    requires
        toks.len() == spans.len(),
        0 <= k < toks.len(),
        toks[k] is Tree,
        spans_ordered(toks, spans),
        spans_end_by(toks, spans, off),
    ensures
        spans_ordered(toks.update(k, Token::Tree(tree)), spans.update(k, span)),
        spans_end_by(toks.update(k, Token::Tree(tree)), spans.update(k, span), off),
{
    let t2 = toks.update(k, Token::Tree(tree));
    let s2 = spans.update(k, span);
    assert forall|i: int| 0 <= i < toks.len() && i != k implies t2[i] == toks[i] && s2[i] == spans[i] by {}
}

/// `b` holds every text of `a`, at the same handle.
pub open spec fn words_grow(a: &Interner, b: &Interner) -> bool {
    &&& a.texts().len() <= b.texts().len()
    &&& forall|k: int| 0 <= k < a.texts().len() ==> #[trigger] b.texts()[k] == a.texts()[k]
}

proof fn lemma_measured_grow(toks: Seq<Token>, spans: Seq<Span>, a: &Interner, b: &Interner)
    requires
        tokens_measured(toks, spans, a),
        words_grow(a, b),
    ensures
        tokens_measured(toks, spans, b),
{
    assert forall|i: int| 0 <= i < toks.len() implies (#[trigger] toks[i]).measurable(b)
        && (!(toks[i] is Tree) ==> spans[i].spec_len() == toks[i].width(b)) by {
        assert(toks[i].measurable(a));
        if let Some(w) = toks[i].word_of() {
            assert(b.text_of(w) == a.text_of(w));
        }
    }
}

proof fn lemma_measured_push(toks: Seq<Token>, spans: Seq<Span>, words: &Interner, tok: Token, span: Span)
    requires
        tokens_measured(toks, spans, words),
        tok.measurable(words),
        span.wf(),
        !(tok is Tree) ==> span.spec_len() == tok.width(words),
        tok is Tree ==> span == tok->Tree_0.span,
    ensures
        tokens_measured(toks.push(tok), spans.push(span), words),
{
    let t2 = toks.push(tok);
    let s2 = spans.push(span);
    assert forall|i: int| 0 <= i < t2.len() implies (#[trigger] t2[i]).measurable(words) && s2[i].wf()
        && (!(t2[i] is Tree) ==> s2[i].spec_len() == t2[i].width(words))
        && (t2[i] is Tree ==> s2[i] == t2[i]->Tree_0.span) by {
        if i < toks.len() {
            assert(t2[i] == toks[i]);
            assert(s2[i] == spans[i]);
        }
    }
}

proof fn lemma_open_trees(toks: Seq<Token>, stack: Seq<usize>, c: char, tree: TokenTree)
    requires
        trees_in_progress(toks, stack),
        is_opening(c),
        tree.start == toks.len() + 2,
        tree.open,
        tree.span.wf(),
    ensures
        trees_in_progress(toks.push(Token::Delimiter(c)).push(Token::Tree(tree)), stack.push((toks.len() + 1) as usize)),
{
    let t2 = toks.push(Token::Delimiter(c)).push(Token::Tree(tree));
    let s2 = stack.push((toks.len() + 1) as usize);
    assert forall|i: int| 0 <= i < toks.len() implies t2[i] == toks[i] by {}
    assert forall|m: int| 0 <= m < stack.len() implies s2[m] == stack[m] by {}
    assert forall|i: int| 0 <= i < t2.len() && (#[trigger] t2[i]) is Tree implies {
        let t = t2[i]->Tree_0;
        &&& 1 <= i
        &&& t2[i - 1] is Delimiter
        &&& is_opening(t2[i - 1]->Delimiter_0)
        &&& t.start == i + 1
        &&& t.span.wf()
        &&& !t.open ==> t.end() < t2.len() && t2[t.end()] == Token::Delimiter(closing_of(t2[i - 1]->Delimiter_0))
    } by {
        if i < toks.len() {
            assert(toks[i] is Tree);
        }
    }
    assert forall|i: int| 0 <= i < t2.len() && (#[trigger] t2[i]) is Delimiter && is_opening(t2[i]->Delimiter_0)
        implies i + 1 < t2.len() && t2[i + 1] is Tree by {
        if i < toks.len() {
            assert(toks[i] is Delimiter);
        }
    }
}

proof fn lemma_text_width_at_least_len(s: Seq<char>)
    ensures
        text_width(s) >= s.len(),
    decreases s.len(),
{
    if s.len() > 0 {
        lemma_text_width_at_least_len(s.drop_last());
    }
}

proof fn lemma_open_starts(toks: Seq<Token>, c: char, tree: TokenTree, a: nat, b: nat)
    requires
        open_trees_start_by(toks, a),
        a <= b,
        tree.span.start.value() <= b,
    ensures
        open_trees_start_by(toks.push(Token::Delimiter(c)).push(Token::Tree(tree)), b),
{
    let t2 = toks.push(Token::Delimiter(c)).push(Token::Tree(tree));
    assert forall|i: int| 0 <= i < t2.len() && (#[trigger] t2[i]) is Tree && t2[i]->Tree_0.open
        implies t2[i]->Tree_0.span.start.value() <= b by {
        if i < toks.len() {
            assert(t2[i] == toks[i]);
        }
    }
}

impl LexedFile {
    /// The table is balanced, and each token spans its width.
    pub open spec fn wf(&self, words: &Interner) -> bool {
        &&& trees_balanced(self.tokens@)
        &&& tokens_measured(self.tokens@, self.spans@, words)
        &&& self.root.start == 0
        &&& self.root.len == self.tokens@.len()
        &&& !self.root.open
        &&& self.root.span.start.value() == 0
        &&& spans_ordered(self.tokens@, self.spans@)
        &&& spans_end_by(self.tokens@, self.spans@, self.root.span.end.value())
    }

    /// The structure that parsing relies on, which does not depend on the interner.
    pub open spec fn shape_ok(&self) -> bool {
        &&& trees_balanced(self.tokens@)
        &&& self.tokens@.len() == self.spans@.len()
        &&& forall|i: int| 0 <= i < self.spans@.len() ==> (#[trigger] self.spans@[i]).wf()
        &&& spans_ordered(self.tokens@, self.spans@)
        &&& self.root.start == 0
        &&& self.root.len == self.tokens@.len()
    }

    /// Each token is what its range of `text` lexes to, and the ranges follow one
    /// another over the whole text.
    pub open spec fn covers(&self, text: Seq<char>, words: &Interner) -> bool {
        tokens_cover(self.tokens@, self.ranges@, text, words, text.len() as int)
    }

    /// Some tree never saw its closing delimiter.
    pub open spec fn spec_has_open_tree(&self) -> bool {
        exists|i: int| 0 <= i < self.tokens@.len() && (#[trigger] self.tokens@[i]) is Tree
            && self.tokens@[i]->Tree_0.open
    }

    /// A table with the same tokens, spans and ranges.
    pub fn copy(&self) -> (r: LexedFile)
        ensures
            r.tokens@ == self.tokens@,
            r.spans@ == self.spans@,
            r.root == self.root,
            r.ranges@ == self.ranges@,
            r.stacks@ == self.stacks@,
    {
        LexedFile {
            tokens: crate::syntax::copy_vec(&self.tokens),
            spans: crate::syntax::copy_vec(&self.spans),
            root: self.root,
            ranges: Ghost(self.ranges@),
            stacks: Ghost(self.stacks@),
        }
    }

    /// Whether two tables hold the same tokens with the same spans.
    pub fn same_as(&self, other: &LexedFile) -> (r: bool)
        ensures
            r == (self.tokens@ == other.tokens@ && self.spans@ == other.spans@ && self.root == other.root),
    {
        if self.tokens.len() != other.tokens.len() || self.spans.len() != other.spans.len() || self.root != other.root {
            return false;
        }
        let mut i: usize = 0;
        while i < self.tokens.len()
            invariant
                self.tokens@.len() == other.tokens@.len(),
                i <= self.tokens@.len(),
                forall|k: int| 0 <= k < i ==> self.tokens@[k] == other.tokens@[k],
            decreases self.tokens@.len() - i,
        {
            if self.tokens[i] != other.tokens[i] {
                return false;
            }
            i += 1;
        }
        let mut j: usize = 0;
        while j < self.spans.len()
            invariant
                self.spans@.len() == other.spans@.len(),
                j <= self.spans@.len(),
                forall|k: int| 0 <= k < j ==> self.spans@[k] == other.spans@[k],
            decreases self.spans@.len() - j,
        {
            if self.spans[j] != other.spans[j] {
                return false;
            }
            j += 1;
        }
        assert(self.tokens@ =~= other.tokens@);
        assert(self.spans@ =~= other.spans@);
        true
    }

    /// Whether some tree never saw its closing delimiter: the input is unfinished.
    pub fn has_open_tree(&self) -> (r: bool)
        ensures
            r == self.spec_has_open_tree(),
    {
        let mut i: usize = 0;
        while i < self.tokens.len()
            invariant
                i <= self.tokens@.len(),
                forall|k: int| 0 <= k < i ==> !((#[trigger] self.tokens@[k]) is Tree && self.tokens@[k]->Tree_0.open),
            decreases self.tokens@.len() - i,
        {
            if let Token::Tree(t) = self.tokens[i] {
                if t.open {
                    return true;
                }
            }
            i += 1;
        }
        false
    }
}

/// The end of the run of identifier characters that starts at `i`.
fn scan_ident(text: &str, i: usize, n: usize) -> (j: usize)
    requires
        n == text@.len(),
        i < n,
    ensures
        i <= j <= n,
        forall|k: int| i <= k < j ==> is_ident_continue(#[trigger] text@[k]),
        j < n ==> !is_ident_continue(text@[j as int]),
{
    let mut j = i;
    while j < n
        invariant
            n == text@.len(),
            i <= j <= n,
            forall|k: int| i <= k < j ==> is_ident_continue(#[trigger] text@[k]),
        decreases n - j,
    {
        let c = text.get_char(j);
        if !ident_char(c) {
            return j;
        }
        j += 1;
    }
    j
}

/// The end of the run of digits and underscores that starts at `i`.
fn scan_number(text: &str, i: usize, n: usize) -> (j: usize)
    requires
        n == text@.len(),
        i < n,
    ensures
        i <= j <= n,
        forall|k: int| i <= k < j ==> #[trigger] is_digit(text@[k]) || text@[k] == '_',
        j < n ==> !(is_digit(text@[j as int]) || text@[j as int] == '_'),
{
    let mut j = i;
    while j < n
        invariant
            n == text@.len(),
            i <= j <= n,
            forall|k: int| i <= k < j ==> #[trigger] is_digit(text@[k]) || text@[k] == '_',
        decreases n - j,
    {
        let c = text.get_char(j);
        if !(('0' <= c && c <= '9') || c == '_') {
            return j;
        }
        j += 1;
    }
    j
}

/// The end of the string literal whose opening quote is at `i`: past the closing
/// quote, or the end of the text.
fn scan_string(text: &str, i: usize, n: usize) -> (r: usize)
    requires
        n == text@.len(),
        i < n,
    ensures
        i < r <= n,
        text@[i as int] == '"' ==> string_run(text@, i as int, r as int),
{
    let mut j = i + 1;
    while j < n
        invariant
            n == text@.len(),
            i < j <= n,
            forall|k: int| i < k < j ==> text@[k] != '"',
        decreases n - j,
    {
        let c = text.get_char(j);
        if c == '"' {
            return j + 1;
        }
        j += 1;
    }
    j
}

/// Interns the characters `i .. j` of `text` and returns the word with its width.
fn intern_range(text: &str, i: usize, j: usize, words: &mut Interner) -> (r: (Word, u32))
    requires
        i <= j <= text@.len(),
        old(words).wf(),
        text_width(text@.subrange(i as int, j as int)) <= u32::MAX,
    ensures
        final(words).wf(),
        words_grow(old(words), final(words)),
        final(words).holds(r.0),
        final(words).text_of(r.0) == text@.subrange(i as int, j as int),
        r.1 == text_width(text@.subrange(i as int, j as int)),
{
    let piece = text.substring_char(i, j);
    let w = str_width(piece);
    let word = words.intern(piece.to_owned());
    (word, w)
}

/// The table while it is being built, with the trees still waiting to be closed.
struct Builder {
    tokens: Vec<Token>,
    spans: Vec<Span>,
    stack: Vec<usize>,
    ranges: Ghost<Seq<(int, int)>>,
    stacks: Ghost<Seq<Seq<usize>>>,
}

/// Every open tree starts at or before `off`.
pub open spec fn open_trees_start_by(toks: Seq<Token>, off: nat) -> bool {
    forall|i: int| 0 <= i < toks.len() && (#[trigger] toks[i]) is Tree && toks[i]->Tree_0.open
        ==> toks[i]->Tree_0.span.start.value() <= off
}

impl Builder {
    #[verifier::opaque]
    spec fn inv(&self, words: &Interner, off: nat) -> bool {
        &&& trees_in_progress(self.tokens@, self.stack@)
        &&& tokens_measured(self.tokens@, self.spans@, words)
        &&& open_trees_start_by(self.tokens@, off)
        &&& spans_ordered(self.tokens@, self.spans@)
        &&& spans_end_by(self.tokens@, self.spans@, off)
    }

    /// The recorded stacks follow the tokens up to the current stack, and each
    /// closing delimiter was read against the innermost open tree.
    #[verifier::opaque]
    spec fn traced(&self) -> bool {
        traced_to(self.tokens@, self.stacks@, self.stack@)
    }

    #[verifier::opaque]
    spec fn covers(&self, text: Seq<char>, words: &Interner, pos: int) -> bool {
        tokens_cover(self.tokens@, self.ranges@, text, words, pos)
    }

    proof fn lemma_covers_grow(&self, text: Seq<char>, a: &Interner, b: &Interner, pos: int)
        requires
            self.covers(text, a, pos),
            words_grow(a, b),
        ensures
            self.covers(text, b, pos),
    {
        reveal(Builder::covers);
        lemma_cover_grow(self.tokens@, self.ranges@, text, a, b, pos);
    }

    proof fn lemma_words_grow(&self, a: &Interner, b: &Interner, off: nat)
        requires
            self.inv(a, off),
            words_grow(a, b),
        ensures
            self.inv(b, off),
    {
        reveal(Builder::inv);
        lemma_measured_grow(self.tokens@, self.spans@, a, b);
    }

    /// Appends a token that neither opens nor is a tree.
    fn push_plain(&mut self, tok: Token, span: Span, Ghost(words): Ghost<&Interner>, Ghost(off): Ghost<nat>,
        Ghost(text): Ghost<Seq<char>>, Ghost(a): Ghost<int>, Ghost(b): Ghost<int>)
        requires
            old(self).inv(words, off),
            old(self).covers(text, words, a),
            old(self).traced(),
            token_matches_text(tok, text, a, b, words),
            !(tok is Tree),
            !(tok is Delimiter),
            tok is Unknown && is_closing(tok->Unknown_0) ==> old(self).stack@.len() == 0
                || closing_of(old(self).tokens@[old(self).stack@.last() - 1]->Delimiter_0) != tok->Unknown_0,
            tok.measurable(words),
            span.wf(),
            span.spec_len() == tok.width(words),
            span.start.value() == off,
        ensures
            final(self).inv(words, span.end.value()),
            final(self).covers(text, words, b),
            final(self).traced(),
            final(self).stack@ == old(self).stack@,
            final(self).tokens@.len() == old(self).tokens@.len() + 1,
    {
        reveal(Builder::inv);
        reveal(Builder::covers);
        reveal(Builder::traced);
        let ghost toks0 = self.tokens@;
        let ghost stacks0 = self.stacks@;
        proof {
            lemma_ordered_push(self.tokens@, self.spans@, off, tok, span);
            lemma_cover_push(self.tokens@, self.ranges@, text, words, a, tok, b);
        }
        self.tokens.push(tok);
        self.spans.push(span);
        self.ranges = Ghost(self.ranges@.push((a, b)));
        self.stacks = Ghost(self.stacks@.push(self.stack@));
        proof {
            assert forall|k: int| 0 <= k < self.tokens@.len() - 1
                implies #[trigger] self.stacks@[k + 1] == next_stack(self.tokens@[k], k, self.stacks@[k]) by {
                if k < toks0.len() - 1 {
                    assert(self.stacks@[k + 1] == stacks0[k + 1]);
                }
            }
            assert forall|k: int| 0 <= k < self.tokens@.len() && is_closer_token(#[trigger] self.tokens@[k])
                implies ({
                    let st = self.stacks@[k];
                    let m = st.last() as int;
                    &&& self.tokens@[k] is Delimiter ==> st.len() > 0 && 1 <= m < k && self.tokens@[m] is Tree && !self.tokens@[m]->Tree_0.open
                        && self.tokens@[m]->Tree_0.end() == k && self.tokens@[m - 1] is Delimiter
                        && closing_of(self.tokens@[m - 1]->Delimiter_0) == self.tokens@[k]->Delimiter_0
                    &&& self.tokens@[k] is Unknown ==> st.len() == 0 || (1 <= m < k && self.tokens@[m - 1] is Delimiter
                        && closing_of(self.tokens@[m - 1]->Delimiter_0) != self.tokens@[k]->Unknown_0)
                }) by {
                if k < toks0.len() {
                    assert(is_closer_token(toks0[k]));
                } else if self.stack@.len() > 0 {
                    let m = self.stack@.last() as int;
                    assert(self.stack@[self.stack@.len() - 1] == m as usize);
                }
            }
        }
    }

    /// Appends an opening delimiter and the tree that it starts.
    fn open_tree(&mut self, c: char, start: Offset, Ghost(words): Ghost<&Interner>, Ghost(off): Ghost<nat>,
        Ghost(text): Ghost<Seq<char>>, Ghost(a): Ghost<int>)
        requires
            old(self).inv(words, start.value()),
            old(self).covers(text, words, a),
            old(self).traced(),
            0 <= a < text.len(),
            text[a] == c,
            is_opening(c),
            start.value() + char_width(c) == off,
            off <= u32::MAX,
            old(self).tokens@.len() + 2 < usize::MAX,
        ensures
            final(self).inv(words, off),
            final(self).covers(text, words, a + 1),
            final(self).traced(),
            final(self).tokens@.len() == old(self).tokens@.len() + 2,
    {
        let ghost toks0 = self.tokens@;
        let ghost spans0 = self.spans@;
        let ghost stack0 = self.stack@;
        let cw = utf8_width(c);
        let dspan = Span { start, end: Offset(start.0 + cw) };
        let here = Offset(start.0 + cw);
        let idx = self.tokens.len() + 1;
        let tree = TokenTree { start: idx + 1, len: 0, span: Span { start: here, end: here }, open: true };
        let ghost toks1 = toks0.push(Token::Delimiter(c)).push(Token::Tree(tree));
        let ghost spans1 = spans0.push(dspan).push(tree.span);
        proof {
            reveal(Builder::inv);
            lemma_measured_push(toks0, spans0, words, Token::Delimiter(c), dspan);
            lemma_measured_push(toks0.push(Token::Delimiter(c)), spans0.push(dspan), words, Token::Tree(tree), tree.span);
            lemma_open_trees(toks0, stack0, c, tree);
            lemma_open_starts(toks0, c, tree, start.value(), off);
            lemma_ordered_push(toks0, spans0, start.value(), Token::Delimiter(c), dspan);
            lemma_ordered_push(toks0.push(Token::Delimiter(c)), spans0.push(dspan), off, Token::Tree(tree), tree.span);
        }
        self.tokens.push(Token::Delimiter(c));
        self.spans.push(dspan);
        self.tokens.push(Token::Tree(tree));
        self.spans.push(tree.span);
        self.stack.push(idx);
        assert(self.tokens@ == toks1);
        assert(self.spans@ == spans1);
        assert(self.inv(words, off)) by {
            reveal(Builder::inv);
        }
        proof {
            reveal(Builder::covers);
            let r0 = self.ranges@;
            lemma_cover_push(toks0, r0, text, words, a, Token::Delimiter(c), a + 1);
            lemma_cover_push(toks0.push(Token::Delimiter(c)), r0.push((a, a + 1)), text, words, a + 1, Token::Tree(tree), a + 1);
        }
        self.ranges = Ghost(self.ranges@.push((a, a + 1)).push((a + 1, a + 1)));
        proof {
            reveal(Builder::traced);
            lemma_trace_open(toks0, self.stacks@, stack0, c, tree);
        }
        self.stacks = Ghost(self.stacks@.push(stack0).push(stack0));
        assert(self.traced()) by {
            reveal(Builder::traced);
        }
    }

    /// Closes the innermost open tree with `c` when `c` matches its opening
    /// delimiter; otherwise appends `c` as an unknown character.
    #[verifier::rlimit(30)]
    fn close_tree(&mut self, c: char, start: Offset, Ghost(words): Ghost<&Interner>, Ghost(off): Ghost<nat>,
        Ghost(text): Ghost<Seq<char>>, Ghost(a): Ghost<int>)
        requires
            old(self).inv(words, start.value()),
            old(self).covers(text, words, a),
            old(self).traced(),
            0 <= a < text.len(),
            text[a] == c,
            is_closing(c),
            start.value() + char_width(c) == off,
            off <= u32::MAX,
        ensures
            final(self).inv(words, off),
            final(self).covers(text, words, a + 1),
            final(self).traced(),
            final(self).tokens@.len() == old(self).tokens@.len() + 1,
    {
        let ghost toks0 = self.tokens@;
        let ghost stacks0 = self.stacks@;
        let ghost spans0 = self.spans@;
        let ghost stack0 = self.stack@;
        let cw = utf8_width(c);
        let end = Offset(start.0 + cw);
        if self.stack.len() > 0 {
            let top = self.stack[self.stack.len() - 1];
            proof { reveal(Builder::inv); }
            if let Token::Delimiter(o) = self.tokens[top - 1] {
                if closing_delimiter(o) == c {
                    let t = self.tokens[top].tree().unwrap();
                    let closed = TokenTree {
                        start: t.start,
                        len: self.tokens.len() - t.start,
                        span: Span { start: t.span.start, end: start },
                        open: false,
                    };
                    proof {
                        reveal(Builder::inv);
                        lemma_close(toks0, spans0, stack0, words, start.value(), off, c, closed);
                        reveal(Builder::covers);
                        let top_i = top as int;
                        lemma_cover_set_tree(toks0, self.ranges@, text, words, a, top_i, closed);
                        lemma_cover_push(toks0.update(top_i, Token::Tree(closed)), self.ranges@, text, words, a, Token::Delimiter(c), a + 1);
                    }
                    self.tokens.set(top, Token::Tree(closed));
                    self.spans.set(top, closed.span);
                    self.stack.pop();
                    self.tokens.push(Token::Delimiter(c));
                    self.spans.push(Span { start, end });
                    self.ranges = Ghost(self.ranges@.push((a, a + 1)));
                    proof {
                        reveal(Builder::traced);
                        reveal(Builder::inv);
                        assert(stack0[stack0.len() - 1] == top);
                        lemma_trace_close(toks0, stacks0, stack0, c, closed);
                    }
                    self.stacks = Ghost(self.stacks@.push(stack0));
                    assert(self.traced()) by {
                        reveal(Builder::traced);
                        assert(self.stack@ =~= stack0.drop_last());
                    }
                    assert(self.covers(text, words, a + 1)) by {
                        reveal(Builder::covers);
                    }
                    assert(self.stack@ =~= stack0.drop_last());
                    assert(self.inv(words, off)) by {
                        reveal(Builder::inv);
                    }
                    return;
                }
            }
        }
        proof {
            reveal(Builder::inv);
            if self.stack@.len() > 0 {
                assert(self.stack@[self.stack@.len() - 1] == self.stack@.last());
            }
        }
        self.push_plain(Token::Unknown(c), Span { start, end }, Ghost(words), Ghost(start.value()), Ghost(text), Ghost(a), Ghost(a + 1));
    }

    /// Marks every tree still waiting for its closing delimiter as open, running to
    /// the end of the table.
    #[verifier::rlimit(30)]
    fn finish(self, off: u32, Ghost(words): Ghost<&Interner>, Ghost(text): Ghost<Seq<char>>) -> (r: LexedFile)
        requires
            self.inv(words, off as nat),
            self.covers(text, words, text.len() as int),
            self.traced(),
        ensures
            r.wf(words),
            r.covers(text, words),
            stacks_follow(r.tokens@, r.stacks@),
            closers_match(r.tokens@, r.stacks@),
            r.root.span.end.value() == off,
    {
        reveal(Builder::inv);
        reveal(Builder::covers);
        reveal(Builder::traced);
        let Builder { mut tokens, mut spans, stack: _, ranges, stacks } = self;
        let total = tokens.len();
        let mut i: usize = 0;
        while i < total
            invariant
                trees_in_progress(tokens@, Seq::<usize>::empty()),
                tokens_measured(tokens@, spans@, words),
                open_trees_start_by(tokens@, off as nat),
                spans_ordered(tokens@, spans@),
                spans_end_by(tokens@, spans@, off as nat),
                tokens_cover(tokens@, ranges@, text, words, text.len() as int),
                stacks_follow(tokens@, stacks@),
                closers_match(tokens@, stacks@),
                total == tokens@.len(),
                i <= total,
                forall|k: int| 0 <= k < i && (#[trigger] tokens@[k]) is Tree && tokens@[k]->Tree_0.open
                    ==> tokens@[k]->Tree_0.end() == total,
            decreases total - i,
        {
            if let Token::Tree(t) = tokens[i] {
                if t.open {
                    let opened = TokenTree {
                        start: t.start,
                        len: total - t.start,
                        span: Span { start: t.span.start, end: Offset(off) },
                        open: true,
                    };
                    proof {
                        lemma_ordered_set_tree(tokens@, spans@, off as nat, i as int, opened, opened.span);
                        lemma_cover_set_tree(tokens@, ranges@, text, words, text.len() as int, i as int, opened);
                        lemma_trace_set_open(tokens@, stacks@, i as int, opened);
                    }
                    tokens.set(i, Token::Tree(opened));
                    spans.set(i, opened.span);
                }
            }
            i += 1;
        }
        let root = TokenTree { start: 0, len: tokens.len(), span: Span { start: Offset(0), end: Offset(off) }, open: false };
        LexedFile { tokens, spans, root, ranges, stacks }
    }
}

/// Lexes `text` into a flat token table. Whitespace is kept as tokens, an
/// unmatched closing delimiter becomes an `Unknown` token, and an opening
/// delimiter that is never closed leaves an open tree rather than an error.
pub fn lex(text: &str, words: &mut Interner) -> (r: LexedFile)
    requires
        old(words).wf(),
        text_width(text@) < u32::MAX,
        2 * text_width(text@) + 2 < usize::MAX,
    ensures
        final(words).wf(),
        words_grow(old(words), final(words)),
        r.wf(final(words)),
        r.shape_ok(),
        r.covers(text@, final(words)),
        stacks_follow(r.tokens@, r.stacks@),
        closers_match(r.tokens@, r.stacks@),
        r.root.span.end.value() == text_width(text@),
{
    let n = text.unicode_len();
    let mut b = Builder { tokens: Vec::new(), spans: Vec::new(), stack: Vec::new(), ranges: Ghost(Seq::empty()), stacks: Ghost(Seq::empty()) };
    let mut i: usize = 0;
    let mut off: u32 = 0;
    let ghost w0 = *words;
    assert(text@.subrange(0, 0) =~= Seq::<char>::empty());
    proof { reveal(Builder::inv); reveal(Builder::covers); reveal(Builder::traced); }
    while i < n
        invariant
            n == text@.len(),
            i <= n,
            text_width(text@) < u32::MAX,
            2 * text_width(text@) + 2 < usize::MAX,
            b.tokens@.len() <= 2 * off,
            off == text_width(text@.subrange(0, i as int)),
            words.wf(),
            words_grow(&w0, words),
            w0 == *old(words),
            b.inv(words, off as nat),
            b.covers(text@, words, i as int),
            b.traced(),
        decreases n - i,
    {
        let c = text.get_char(i);
        let next = token_end(text, i, n, c);
        proof {
            lemma_text_width_prefix(text@, i as int);
            lemma_text_width_concat(text@.subrange(0, i as int), text@.subrange(i as int, next as int));
            assert(text@.subrange(0, i as int) + text@.subrange(i as int, next as int) =~= text@.subrange(0, next as int));
            lemma_text_width_prefix(text@, next as int);
            assert(text@.subrange(i as int, i + 1).drop_last() =~= Seq::<char>::empty());
            assert(text@.subrange(i as int, i + 1).last() == c);
        }
        let start = Offset(off);
        let ghost words_before = *words;
        proof {
            lemma_text_width_at_least_len(text@.subrange(i as int, next as int));
        }
        if ident_start_char(c) || ('0' <= c && c <= '9') || c == '"' {
            let (w, ww) = intern_range(text, i, next, words);
            proof {
                b.lemma_words_grow(&words_before, words, off as nat);
                b.lemma_covers_grow(text@, &words_before, words, i as int);
            }
            let tok = if c == '"' {
                if has_brace(text, i, next) { Token::FormatString(w) } else { Token::StringLiteral(w) }
            } else if ident_start_char(c) {
                if next < n && text.get_char(next) == '"' { Token::Prefix(w) } else { Token::Alphabetic(w) }
            } else {
                Token::Number(w)
            };
            proof {
                assert(text@[i as int] == c);
                if c == '"' {
                    assert(string_run(text@, i as int, next as int));
                } else if is_ident_start(c) {
                    assert(ident_run(text@, i as int, next as int));
                } else {
                    assert(is_digit(c));
                    assert(number_run(text@, i as int, next as int));
                }
                assert(token_matches_text(tok, text@, i as int, next as int, words));
            }
            b.push_plain(tok, Span { start, end: Offset(off + ww) }, Ghost(&*words), Ghost(off as nat),
                Ghost(text@), Ghost(i as int), Ghost(next as int));
            off = off + ww;
        } else {
            let cw = utf8_width(c);
            let end = Offset(off + cw);
            proof {
                reveal_with_fuel(text_width, 2);
                assert(next == i + 1);
                assert(text_width(text@.subrange(i as int, next as int)) == char_width(c));
            }
            if c == '(' || c == '[' || c == '{' {
                b.open_tree(c, start, Ghost(&*words), Ghost((off + cw) as nat), Ghost(text@), Ghost(i as int));
            } else if c == ')' || c == ']' || c == '}' {
                b.close_tree(c, start, Ghost(&*words), Ghost((off + cw) as nat), Ghost(text@), Ghost(i as int));
            } else {
                let tok = if char_is_whitespace(c) {
                    Token::Whitespace(c)
                } else if op_char(c) {
                    Token::Op(c)
                } else {
                    Token::Unknown(c)
                };
                b.push_plain(tok, Span { start, end }, Ghost(&*words), Ghost(off as nat),
                    Ghost(text@), Ghost(i as int), Ghost(next as int));
                proof {
                    reveal_with_fuel(text_width, 2);
                    assert(next == i + 1); }
            }
            off = off + cw;
        }
        i = next;
    }
    assert(text@.subrange(0, n as int) =~= text@);
    b.finish(off, Ghost(&*words), Ghost(text@))
}

/// The end of the token that starts with `c` at `i`.
fn token_end(text: &str, i: usize, n: usize, c: char) -> (j: usize)
    requires
        n == text@.len(),
        i < n,
        c == text@[i as int],
    ensures
        i < j <= n,
        !(is_ident_start(c) || is_digit(c) || c == '"') ==> j == i + 1,
        c == '"' ==> string_run(text@, i as int, j as int),
        c != '"' && is_ident_start(c) ==> ident_run(text@, i as int, j as int),
        c != '"' && !is_ident_start(c) && is_digit(c) ==> number_run(text@, i as int, j as int),
{
    if c == '"' {
        scan_string(text, i, n)
    } else if ident_start_char(c) {
        scan_ident(text, i, n)
    } else if '0' <= c && c <= '9' {
        scan_number(text, i, n)
    } else {
        i + 1
    }
}

/// Whether the characters `i .. j` of `text` hold a `{`.
fn has_brace(text: &str, i: usize, j: usize) -> (r: bool)
    requires
        i <= j <= text@.len(),
    ensures
        r == text@.subrange(i as int, j as int).contains('{'),
{
    let mut k: usize = i;
    while k < j
        invariant
            i <= k <= j,
            j <= text@.len(),
            forall|m: int| i <= m < k ==> text@[m] != '{',
        decreases j - k,
    {
        if text.get_char(k) == '{' {
            assert(text@.subrange(i as int, j as int)[k - i] == '{');
            return true;
        }
        k += 1;
    }
    assert forall|m: int| 0 <= m < j - i implies text@.subrange(i as int, j as int)[m] != '{' by {
        assert(text@.subrange(i as int, j as int)[m] == text@[i + m]);
    }
    false
}

} // verus!
