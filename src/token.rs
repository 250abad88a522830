use vstd::prelude::*;
use vstd::string::*;
use crate::span::Span;
use crate::word::{Interner, Word};

verus! {

/// The number of bytes that `c` takes in UTF-8.
pub open spec fn char_width(c: char) -> nat {
    if (c as u32) < 0x80 {
        1
    } else if (c as u32) < 0x800 {
        2
    } else if (c as u32) < 0x10000 {
        3
    } else {
        4
    }
}

/// The number of bytes that `s` takes in UTF-8.
pub open spec fn text_width(s: Seq<char>) -> nat
    decreases s.len(),
{
    if s.len() == 0 {
        0
    } else {
        text_width(s.drop_last()) + char_width(s.last())
    }
}

pub proof fn lemma_text_width_prefix(s: Seq<char>, i: int)
    requires
        0 <= i <= s.len(),
    ensures
        text_width(s.subrange(0, i)) <= text_width(s),
    decreases s.len() - i,
{
    if i < s.len() {
        lemma_text_width_prefix(s, i + 1);
        assert(s.subrange(0, i + 1).drop_last() =~= s.subrange(0, i));
    } else {
        assert(s.subrange(0, i) =~= s);
    }
}

/// Text width is additive over concatenation.
pub proof fn lemma_text_width_concat(a: Seq<char>, b: Seq<char>)
    ensures
        text_width(a + b) == text_width(a) + text_width(b),
    decreases b.len(),
{
    if b.len() > 0 {
        lemma_text_width_concat(a, b.drop_last());
        assert((a + b).drop_last() =~= a + b.drop_last());
    } else {
        assert(a + b =~= a);
    }
}

/// The number of bytes that `c` takes in UTF-8.
pub fn utf8_width(c: char) -> (r: u32)
    ensures
        r == char_width(c),
        1 <= r <= 4,
{
    let v = c as u32;
    if v < 0x80 {
        1
    } else if v < 0x800 {
        2
    } else if v < 0x10000 {
        3
    } else {
        4
    }
}

/// The number of bytes that `s` takes in UTF-8.
pub fn str_width(s: &str) -> (r: u32)
    requires
        text_width(s@) <= u32::MAX,
    ensures
        r == text_width(s@),
{
    let n = s.unicode_len();
    let mut i: usize = 0;
    let mut acc: u32 = 0;
    while i < n
        invariant
            n == s@.len(),
            i <= n,
            text_width(s@) <= u32::MAX,
            acc == text_width(s@.subrange(0, i as int)),
        decreases n - i,
    {
        let c = s.get_char(i);
        proof {
            assert(s@.subrange(0, i + 1).drop_last() =~= s@.subrange(0, i as int));
            lemma_text_width_prefix(s@, i + 1);
        }
        acc = acc + utf8_width(c);
        i += 1;
    }
    assert(s@.subrange(0, n as int) =~= s@);
    acc
}

pub open spec fn is_opening(c: char) -> bool {
    c == '(' || c == '[' || c == '{'
}

pub open spec fn is_closing(c: char) -> bool {
    c == ')' || c == ']' || c == '}'
}

/// The closing delimiter that matches the opening delimiter `c`.
pub open spec fn closing_of(c: char) -> char {
    if c == '(' {
        ')'
    } else if c == '[' {
        ']'
    } else {
        '}'
    }
}

/// The closing delimiter that matches the opening delimiter `open`.
pub fn closing_delimiter(open: char) -> (r: char)
    requires
        is_opening(open),
    ensures
        r == closing_of(open),
        is_closing(r),
{
    if open == '(' {
        ')'
    } else if open == '[' {
        ']'
    } else {
        '}'
    }
}

/// The tokens between a matched delimiter pair, as a range of a flat token table:
/// the tokens at indices `start .. start + len`. `span` is the byte range they cover.
/// A tree is `open` when its closing delimiter never came.
#[derive(Copy, Clone, Debug, PartialEq, Eq, Structural, Hash)]
pub struct TokenTree {
    pub start: usize,
    pub len: usize,
    pub span: Span,
    pub open: bool,
}

impl TokenTree {
    /// The index one past the last token of the tree.
    pub open spec fn end(self) -> int {
        self.start + self.len
    }
}

#[derive(Copy, Clone, Debug, PartialEq, Eq, Structural, Hash)]
pub enum Token {
    /// "foo", could be keyword or an identifier
    Alphabetic(Word),
    /// 22_000
    Number(Word),
    /// A single character from an operator like `+`
    Op(char),
    /// `(`, `)`, `[`, `]`, `{`, or `}`
    Delimiter(char),
    /// The contents of a delimited region; it follows its opening delimiter.
    Tree(TokenTree),
    /// An alphabetic word nuzzled right up to a string literal, e.g. the `r` in `r"foo"`.
    Prefix(Word),
    /// A string literal like `"foo"`, quotes included.
    StringLiteral(Word),
    /// A string literal with `{` in it, like `"foo {bar}"`, quotes included.
    FormatString(Word),
    /// Some whitespace (` `, `\n`, etc)
    Whitespace(char),
    /// Some unclassifiable, non-whitespace char
    Unknown(char),
}

impl Token {
    /// The word a token carries, if any.
    pub open spec fn word_of(self) -> Option<Word> {
        match self {
            Token::Alphabetic(w) | Token::Number(w) | Token::Prefix(w)
            | Token::StringLiteral(w) | Token::FormatString(w) => Some(w),
            _ => None,
        }
    }

    /// The number of source bytes the token covers.
    pub open spec fn width(self, words: &Interner) -> int {
        match self {
            Token::Tree(t) => t.span.spec_len(),
            Token::Alphabetic(w) | Token::Number(w) | Token::Prefix(w)
            | Token::StringLiteral(w) | Token::FormatString(w) => text_width(words.text_of(w)) as int,
            Token::Delimiter(c) | Token::Op(c) | Token::Whitespace(c) | Token::Unknown(c) => char_width(c) as int,
        }
    }

    /// The token can report its width.
    pub open spec fn measurable(self, words: &Interner) -> bool {
        match self {
            Token::Tree(t) => t.span.wf(),
            Token::Alphabetic(w) | Token::Number(w) | Token::Prefix(w)
            | Token::StringLiteral(w) | Token::FormatString(w) => words.holds(w) && text_width(words.text_of(w)) <= u32::MAX,
            _ => true,
        }
    }

    /// The number of source bytes the token covers, computed from the token alone.
    pub fn span_len(self, words: &Interner) -> (r: u32)
        requires
            self.measurable(words),
        ensures
            r == self.width(words),
    {
        match self {
            Token::Tree(tree) => tree.span.len(),
            Token::Alphabetic(w) | Token::Number(w) | Token::Prefix(w)
            | Token::StringLiteral(w) | Token::FormatString(w) => str_width(words.resolve(w).as_str()),
            Token::Delimiter(c) | Token::Op(c) | Token::Whitespace(c) | Token::Unknown(c) => utf8_width(c),
        }
    }

    pub fn alphabetic(self) -> (r: Option<Word>)
        ensures
            r == (match self {
                Token::Alphabetic(w) => Some(w),
                _ => None::<Word>,
            }),
    {
        match self {
            Token::Alphabetic(w) => Some(w),
            _ => None,
        }
    }

    /// The text of an alphabetic token.
    pub fn alphabetic_str(self, words: &Interner) -> (r: Option<&String>)
        requires
            self.alphabetic_spec() is Some ==> words.holds(self.alphabetic_spec()->0),
        ensures
            r is Some <==> self.alphabetic_spec() is Some,
            r is Some ==> r->0@ == words.text_of(self.alphabetic_spec()->0),
    {
        match self {
            Token::Alphabetic(w) => Some(words.resolve(w)),
            _ => None,
        }
    }

    pub open spec fn alphabetic_spec(self) -> Option<Word> {
        match self {
            Token::Alphabetic(w) => Some(w),
            _ => None,
        }
    }

    /// Returns Some if this is a [`Token::Tree`] variant.
    pub fn tree(self) -> (r: Option<TokenTree>)
        ensures
            r == (match self {
                Token::Tree(t) => Some(t),
                _ => None::<TokenTree>,
            }),
    {
        match self {
            Token::Tree(t) => Some(t),
            _ => None,
        }
    }
}

} // verus!
