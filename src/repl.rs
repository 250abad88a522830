use vstd::prelude::*;
use vstd::string::*;
use crate::lexer::{char_is_whitespace, closers_match, lex, stacks_follow, token_matches_text, whitespace, LexedFile};
use crate::token::is_opening;
use crate::parser::Keywords;
use crate::parser::{file_items, iviews};
use crate::query::{lexable, parse_lexed};
use crate::token::{text_width, utf8_width};
use crate::word::Interner;

verus! {

/// A command given to the read-eval-print loop itself.
#[derive(Copy, Clone, Debug, PartialEq, Eq, Structural, Hash)]
pub enum Command {
    Exit,
    Interrupt,
    /// whitespace input
    SkipStep,
    Reset,
}

/// What a piece of input looks like.
#[derive(Copy, Clone, Debug, PartialEq, Eq, Structural, Hash)]
pub enum InputType {
    Whitespace,
    ReplCommand,
    /// A delimiter is still open: more lines are needed.
    OpenTokenTree,
    Expr,
    Items,
}

/// A command that the loop does not know.
pub struct UnknownCommand {
    pub text: String,
}

/// The input holds only whitespace.
pub open spec fn all_whitespace(s: Seq<char>) -> bool {
    forall|i: int| 0 <= i < s.len() ==> whitespace(#[trigger] s[i])
}

/// The first character that is not whitespace is a colon.
pub open spec fn starts_with_colon(s: Seq<char>) -> bool {
    exists|i: int| 0 <= i < s.len() && s[i] == ':' && all_whitespace(#[trigger] s.subrange(0, i))
}

/// Whether the input holds only whitespace.
pub fn is_whitespace(text: &str) -> (r: bool)
    ensures
        r == all_whitespace(text@),
{
    let n = text.unicode_len();
    let mut i: usize = 0;
    while i < n
        invariant
            n == text@.len(),
            i <= n,
            forall|k: int| 0 <= k < i ==> whitespace(#[trigger] text@[k]),
        decreases n - i,
    {
        if !char_is_whitespace(text.get_char(i)) {
            return false;
        }
        i += 1;
    }
    true
}

/// Whether the input, leading whitespace aside, starts with `:`.
pub fn is_repl_command(text: &str) -> (r: bool)
    ensures
        r == starts_with_colon(text@),
{
    let n = text.unicode_len();
    let mut i: usize = 0;
    while i < n
        invariant
            n == text@.len(),
            i <= n,
            all_whitespace(text@.subrange(0, i as int)),
            forall|k: int| 0 <= k < i ==> text@[k] != ':',
        decreases n - i,
    {
        let c = text.get_char(i);
        if c == ':' {
            assert(text@[i as int] == ':' && all_whitespace(text@.subrange(0, i as int)));
            return true;
        }
        if !char_is_whitespace(c) {
            proof {
                assert forall|j: int| 0 <= j < text@.len() && text@[j] == ':' implies !all_whitespace(#[trigger] text@.subrange(0, j)) by {
                    if j > i {
                        assert(text@.subrange(0, j)[i as int] == c);
                        assert(!whitespace(text@.subrange(0, j)[i as int]));
                    }
                }
            }
            return false;
        }
        i += 1;
        assert(text@.subrange(0, i as int).drop_last() =~= text@.subrange(0, i - 1));
    }
    proof {
        assert forall|j: int| 0 <= j < text@.len() implies text@[j] != ':' by {
            assert(text@.subrange(0, n as int)[j] == text@[j]);
        }
    }
    false
}

/// Whether the input leaves a delimiter open, so that more lines are needed.
pub fn is_open_token_tree(text: &str) -> (r: bool)
    requires
        lexable(text@),
    ensures
        exists|file: LexedFile, words: Interner| #[trigger] file.covers(text@, &words) && file.shape_ok()
            && stacks_follow(file.tokens@, file.stacks@) && closers_match(file.tokens@, file.stacks@)
            && r == file.spec_has_open_tree(),
        r ==> exists|k: int| 0 <= k < text@.len() && is_opening(#[trigger] text@[k]),
{
    let mut words = Interner::new();
    let file = lex(text, &mut words);
    let r = file.has_open_tree();
    proof {
        if r {
            let i = choose|i: int| 0 <= i < file.tokens@.len() && (#[trigger] file.tokens@[i]) is Tree
                && file.tokens@[i]->Tree_0.open;
            assert(file.tokens@[i] is Tree);
            let d = file.tokens@[i - 1];
            assert(token_matches_text(d, text@, file.ranges@[i - 1].0, file.ranges@[i - 1].1, &words));
            assert(is_opening(text@[file.ranges@[i - 1].0]));
        }
    }
    r
}

/// Whether the input parses into at least one item.
pub fn is_items(text: &str) -> (r: bool)
    requires
        lexable(text@),
    ensures
        exists|file: LexedFile, words: Interner, kw: Keywords| #[trigger] file.covers(text@, &words) && file.shape_ok()
            && stacks_follow(file.tokens@, file.stacks@) && closers_match(file.tokens@, file.stacks@)
            && kw.distinct() && r == (#[trigger] file_items(&file, kw).0.len() > 0),
{
    let mut words = Interner::new();
    let kw = Keywords::new(&mut words);
    let file = lex(text, &mut words);
    let parsed = parse_lexed(&file, kw);
    proof { assert(iviews(parsed.items@).len() == parsed.items@.len()); }
    parsed.items.len() > 0
}

/// Classifies a piece of input: blank, a loop command, unfinished, items to add,
/// or else an expression to evaluate.
pub fn determine_input_type(text: &str) -> (r: InputType)
    requires
        lexable(text@),
    ensures
        all_whitespace(text@) <==> r == InputType::Whitespace,
        !all_whitespace(text@) && starts_with_colon(text@) <==> r == InputType::ReplCommand,
        !all_whitespace(text@) && !starts_with_colon(text@) ==> exists|file: LexedFile, words: Interner|
            #[trigger] file.covers(text@, &words) && file.shape_ok()
            && stacks_follow(file.tokens@, file.stacks@) && closers_match(file.tokens@, file.stacks@)
            && (r == InputType::OpenTokenTree <==> file.spec_has_open_tree()),
        r == InputType::Items ==> exists|file: LexedFile, words: Interner, kw: Keywords|
            #[trigger] file.covers(text@, &words) && file.shape_ok()
            && stacks_follow(file.tokens@, file.stacks@) && closers_match(file.tokens@, file.stacks@)
            && kw.distinct() && #[trigger] file_items(&file, kw).0.len() > 0,
        r == InputType::Expr ==> exists|file: LexedFile, words: Interner, kw: Keywords|
            #[trigger] file.covers(text@, &words) && file.shape_ok()
            && stacks_follow(file.tokens@, file.stacks@) && closers_match(file.tokens@, file.stacks@)
            && kw.distinct() && #[trigger] file_items(&file, kw).0.len() == 0,
{
    if is_whitespace(text) {
        InputType::Whitespace
    } else if is_repl_command(text) {
        InputType::ReplCommand
    } else if is_open_token_tree(text) {
        InputType::OpenTokenTree
    } else if is_items(text) {
        InputType::Items
    } else {
        InputType::Expr
    }
}

/// Whether two strings hold the same characters.
fn str_equal(a: &str, b: &str) -> (r: bool)
    ensures
        r == (a@ == b@),
{
    let n = a.unicode_len();
    if n != b.unicode_len() {
        return false;
    }
    let mut i: usize = 0;
    while i < n
        invariant
            n == a@.len(),
            n == b@.len(),
            i <= n,
            forall|k: int| 0 <= k < i ==> a@[k] == b@[k],
        decreases n - i,
    {
        if a.get_char(i) != b.get_char(i) {
            return false;
        }
        i += 1;
    }
    assert(a@ =~= b@);
    true
}

/// The loop command that `s` names, if any.
pub open spec fn command_of(s: Seq<char>) -> Option<Command> {
    if s == ":exit"@ {
        Some(Command::Exit)
    } else if s == ":skip"@ {
        Some(Command::SkipStep)
    } else if s == ":reset"@ {
        Some(Command::Reset)
    } else {
        None
    }
}

/// Reads a loop command: `:exit`, `:skip` or `:reset`.
pub fn parse_repl_command(text: &str) -> (r: Result<Command, UnknownCommand>)
    ensures
        text@ == ":exit"@ <==> r == Ok::<Command, UnknownCommand>(Command::Exit),
        text@ == ":skip"@ <==> r == Ok::<Command, UnknownCommand>(Command::SkipStep),
        text@ == ":reset"@ <==> r == Ok::<Command, UnknownCommand>(Command::Reset),
        r is Err <==> text@ != ":exit"@ && text@ != ":skip"@ && text@ != ":reset"@,
        r matches Err(e) ==> e.text@ == text@,
{
    proof {
        reveal_strlit(":exit");
        reveal_strlit(":skip");
        reveal_strlit(":reset");
        assert(":exit"@[1] != ":skip"@[1]);
        assert(":exit"@.len() != ":reset"@.len());
        assert(":skip"@.len() != ":reset"@.len());
    }
    if str_equal(text, ":exit") {
        Ok(Command::Exit)
    } else if str_equal(text, ":skip") {
        Ok(Command::SkipStep)
    } else if str_equal(text, ":reset") {
        Ok(Command::Reset)
    } else {
        Err(UnknownCommand { text: text.to_owned() })
    }
}

/// The evaluation kernel of the loop; printing and breakpoints are done by the
/// program around the library.
pub struct Kernel {}

impl Kernel {
    pub fn new() -> (r: Kernel) {
        Kernel {}
    }
}

/// Each item text followed by a blank line, in order.
pub open spec fn items_source(entries: Seq<(Seq<char>, Seq<char>)>) -> Seq<char>
    decreases entries.len(),
{
    if entries.len() == 0 {
        Seq::empty()
    } else {
        items_source(entries.drop_last()) + entries.last().1 + seq!['\n', '\n']
    }
}

/// Some entry has the name `name`.
pub open spec fn has_entry(entries: Seq<(Seq<char>, Seq<char>)>, name: Seq<char>) -> bool {
    exists|i: int| 0 <= i < entries.len() && (#[trigger] entries[i]).0 == name
}

/// `entries` with the text of `name` replaced by `text`, or with the pair
/// appended when the name is new.
pub open spec fn add_one(entries: Seq<(Seq<char>, Seq<char>)>, name: Seq<char>, text: Seq<char>) -> Seq<(Seq<char>, Seq<char>)> {
    if has_entry(entries, name) {
        entries.map_values(|e: (Seq<char>, Seq<char>)| if e.0 == name { (name, text) } else { e })
    } else {
        entries.push((name, text))
    }
}

/// `entries` with each pair of `items` added in turn.
pub open spec fn add_all(entries: Seq<(Seq<char>, Seq<char>)>, items: Seq<(Seq<char>, Seq<char>)>) -> Seq<(Seq<char>, Seq<char>)>
    decreases items.len(),
{
    if items.len() == 0 {
        entries
    } else {
        add_one(add_all(entries, items.drop_last()), items.last().0, items.last().1)
    }
}

/// The pairs as character sequences.
pub open spec fn pairs_of(items: Seq<(String, String)>) -> Seq<(Seq<char>, Seq<char>)> {
    items.map_values(|p: (String, String)| (p.0@, p.1@))
}

/// The items entered so far, by name, in the order in which each name first
/// came; a later item of the same name replaces the earlier text in place.
pub struct ItemBuffer {
    names: Vec<String>,
    texts: Vec<String>,
}

impl ItemBuffer {
    /// The (name, text) pairs, in order.
    pub closed spec fn entries(&self) -> Seq<(Seq<char>, Seq<char>)> {
        Seq::new(self.names@.len(), |i: int| (self.names@[i]@, self.texts@[i]@))
    }

    /// Names are unique and each has a text.
    pub closed spec fn wf(&self) -> bool {
        &&& self.names@.len() == self.texts@.len()
        &&& forall|i: int, j: int| 0 <= i < j < self.names@.len() ==> (#[trigger] self.names@[i])@ != (#[trigger] self.names@[j])@
    }

    pub fn new() -> (r: ItemBuffer)
        ensures
            r.wf(),
            r.entries().len() == 0,
    {
        ItemBuffer { names: Vec::new(), texts: Vec::new() }
    }

    /// Adds or replaces one item.
    pub fn add_item(&mut self, name: String, text: String)
        requires
            old(self).wf(),
        ensures
            final(self).wf(),
            final(self).entries() == add_one(old(self).entries(), name@, text@),
    {
        let n = self.names.len();
        let mut i: usize = 0;
        while i < n
            invariant
                n == self.names@.len(),
                i <= n,
                self.wf(),
                *self == *old(self),
                forall|k: int| 0 <= k < i ==> self.names@[k]@ != name@,
            decreases n - i,
        {
            if self.names[i] == name {
                let ghost before = self.entries();
                assert(before[i as int].0 == name@);
                self.texts.set(i, text);
                proof {
                    assert(has_entry(before, name@));
                    assert forall|k: int| 0 <= k < before.len() implies (#[trigger] self.entries()[k]) == if before[k].0 == name@ {
                        (name@, text@)
                    } else {
                        before[k]
                    } by {
                        if k != i {
                            assert(self.names@[k]@ != name@) by {
                                if k < i {
                                } else {
                                    assert(self.names@[i as int]@ != self.names@[k]@);
                                }
                            }
                        }
                    }
                    assert(self.entries() =~= add_one(before, name@, text@));
                }
                return;
            }
            i += 1;
        }
        let ghost before = self.entries();
        assert(!has_entry(before, name@));
        self.names.push(name);
        self.texts.push(text);
        assert(self.entries() =~= before.push((name@, text@)));
    }

    /// The source of all items followed by a function whose body is the
    /// expression `text`, to be evaluated.
    pub fn expr_source(&self, text: &str) -> (r: String)
        requires
            self.wf(),
        ensures
            r@ == items_source(self.entries()) + "async fn __repl_expr() {\n    "@ + text@ + "\n}"@,
    {
        let mut source = self.create_items_source();
        source.append("async fn __repl_expr() {\n    ");
        source.append(text);
        source.append("\n}");
        source
    }

    /// Adds or replaces each item in turn.
    pub fn add_items(&mut self, items: Vec<(String, String)>)
        requires
            old(self).wf(),
        ensures
            final(self).wf(),
            final(self).entries() == add_all(old(self).entries(), pairs_of(items@)),
    {
        let mut rest = items;
        let ghost all = pairs_of(items@);
        let ghost start = self.entries();
        let total = rest.len();
        let mut done: usize = 0;
        while rest.len() > 0
            invariant
                self.wf(),
                all == pairs_of(items@),
                all.len() == total,
                done + rest@.len() == total,
                pairs_of(rest@) == all.subrange(done as int, total as int),
                self.entries() == add_all(start, all.subrange(0, done as int)),
                start == old(self).entries(),
            decreases rest@.len(),
        {
            let ghost rest0 = rest@;
            let (name, text) = rest.remove(0);
            proof {
                assert(pairs_of(rest0)[0] == all[done as int]);
                assert(all[done as int] == (name@, text@));
                assert(all.subrange(0, done + 1).drop_last() =~= all.subrange(0, done as int));
            }
            self.add_item(name, text);
            done += 1;
            proof {
                assert(rest@ =~= rest0.subrange(1, rest0.len() as int));
                assert forall|k: int| 0 <= k < rest@.len() implies pairs_of(rest@)[k] == all[done + k] by {
                    assert(rest@[k] == rest0[k + 1]);
                    assert(pairs_of(rest0)[k + 1] == all[done + k]);
                }
            }
            assert(pairs_of(rest@) =~= all.subrange(done as int, total as int));
        }
        assert(all.subrange(0, total as int) =~= all);
    }

    /// The source text of all items: each text followed by a blank line, in order.
    pub fn create_items_source(&self) -> (r: String)
        requires
            self.wf(),
        ensures
            r@ == items_source(self.entries()),
    {
        let mut source = String::new();
        let mut i: usize = 0;
        while i < self.names.len()
            invariant
                self.wf(),
                i <= self.names@.len(),
                source@ == items_source(self.entries().subrange(0, i as int)),
            decreases self.names@.len() - i,
        {
            source.append(self.texts[i].as_str());
            source.append("\n\n");
            proof {
                reveal_strlit("\n\n");
                assert(self.entries().subrange(0, i + 1).drop_last() =~= self.entries().subrange(0, i as int));
            }
            i += 1;
        }
        assert(self.entries().subrange(0, self.names@.len() as int) =~= self.entries());
        source
    }
}

/// `s` is a contiguous part of `text`.
pub open spec fn is_slice_of(s: Seq<char>, text: Seq<char>) -> bool {
    exists|a: int, b: int| 0 <= a <= b <= text.len() && s == text.subrange(a, b)
}

/// A piece of input, read for what it is.
pub enum ParsedThing {
    Whitespace,
    ReplCommand(Command),
    OpenTokenTree(String),
    Expr(String),
    Items(Vec<(String, String)>),
}

/// What the loop does next.
pub enum Step {
    EvalExpr(String),
    AddItems(Vec<(String, String)>),
    ExecCommand(Command),
}

/// The character index at which byte offset `off` of `text` falls, if a
/// character starts there (or the text ends there).
fn char_index_at(text: &str, off: u32) -> (r: Option<usize>)
    ensures
        r matches Some(ci) ==> ci <= text@.len() && text_width(text@.subrange(0, ci as int)) == off,
{
    let n = text.unicode_len();
    let mut i: usize = 0;
    let mut acc: u64 = 0;
    assert(text@.subrange(0, 0) =~= Seq::<char>::empty());
    while i < n
        invariant
            n == text@.len(),
            i <= n,
            acc == text_width(text@.subrange(0, i as int)),
            acc <= off,
        decreases n - i,
    {
        if acc == off as u64 {
            return Some(i);
        }
        let c = text.get_char(i);
        proof {
            assert(text@.subrange(0, i + 1).drop_last() =~= text@.subrange(0, i as int));
        }
        acc = acc + utf8_width(c) as u64;
        i += 1;
        if acc > off as u64 {
            return None;
        }
    }
    if acc == off as u64 {
        Some(i)
    } else {
        None
    }
}

/// The text of each item of the input, with the item's name. The text runs
/// from the item's first byte to its last; an item whose span does not fall on
/// character boundaries of the input is left out.
pub fn parse_items(text: &str) -> (r: Vec<(String, String)>)
    requires
        lexable(text@),
    ensures
        forall|k: int| 0 <= k < r@.len() ==> is_slice_of((#[trigger] r@[k]).1@, text@),
{
    let mut words = Interner::new();
    let kw = Keywords::new(&mut words);
    let file = lex(text, &mut words);
    let parsed = parse_lexed(&file, kw);
    let mut out: Vec<(String, String)> = Vec::new();
    let mut k: usize = 0;
    while k < parsed.items.len()
        invariant
            k <= parsed.items@.len(),
            forall|m: int| 0 <= m < out@.len() ==> is_slice_of((#[trigger] out@[m]).1@, text@),
        decreases parsed.items@.len() - k,
    {
        let item = &parsed.items[k];
        let span = item.span();
        let name = item.name();
        if let (Some(a), Some(b)) = (char_index_at(text, span.start.0), char_index_at(text, span.end.0)) {
            if a <= b {
                if let Some(name_text) = words_text(&words, name.word) {
                    let piece = text.substring_char(a, b).to_owned();
                    let ghost before = out@;
                    out.push((name_text, piece));
                    proof {
                        assert forall|m: int| 0 <= m < out@.len() implies is_slice_of((#[trigger] out@[m]).1@, text@) by {
                            if m < before.len() {
                                assert(out@[m] == before[m]);
                            } else {
                                assert(out@[m].1@ == text@.subrange(a as int, b as int));
                            }
                        }
                    }
                }
            }
        }
        k += 1;
    }
    out
}

fn words_text(words: &Interner, w: crate::word::Word) -> (r: Option<String>)
    ensures
        r is Some ==> words.holds(w) && r->0@ == words.text_of(w),
{
    if w.0 < words.len() {
        Some(words.resolve(w).clone())
    } else {
        None
    }
}

/// Reads a piece of input for what it is.
pub fn try_parse_thing(text: String) -> (r: Result<ParsedThing, UnknownCommand>)
    requires
        lexable(text@),
    ensures
        all_whitespace(text@) ==> r matches Ok(ParsedThing::Whitespace),
        !all_whitespace(text@) && starts_with_colon(text@) ==> (r is Err <==> text@ != ":exit"@ && text@ != ":skip"@ && text@ != ":reset"@),
        r matches Ok(ParsedThing::OpenTokenTree(t)) ==> t@ == text@,
        r matches Ok(ParsedThing::Expr(t)) ==> t@ == text@,
        !starts_with_colon(text@) ==> r is Ok,
        !all_whitespace(text@) && starts_with_colon(text@) ==> (match command_of(text@) {
            Some(c) => r matches Ok(ParsedThing::ReplCommand(d)) && d == c,
            None => r matches Err(e) && e.text@ == text@,
        }),
        r matches Ok(ParsedThing::Items(v)) ==> forall|k: int| 0 <= k < v@.len() ==> is_slice_of((#[trigger] v@[k]).1@, text@),
{
    match determine_input_type(text.as_str()) {
        InputType::Whitespace => Ok(ParsedThing::Whitespace),
        InputType::ReplCommand => match parse_repl_command(text.as_str()) {
            Ok(c) => Ok(ParsedThing::ReplCommand(c)),
            Err(e) => Err(e),
        },
        InputType::OpenTokenTree => Ok(ParsedThing::OpenTokenTree(text)),
        InputType::Expr => Ok(ParsedThing::Expr(text)),
        InputType::Items => Ok(ParsedThing::Items(parse_items(text.as_str()))),
    }
}

/// The step that a piece of input asks for; `None` when more lines are needed.
pub fn next_step(thing: ParsedThing) -> (r: Option<Step>)
    ensures
        (thing is OpenTokenTree) <==> r is None,
        thing is Whitespace ==> r matches Some(Step::ExecCommand(Command::SkipStep)),
        thing matches ParsedThing::ReplCommand(c) ==> r matches Some(Step::ExecCommand(d)) && d == c,
{
    match thing {
        ParsedThing::Whitespace => Some(Step::ExecCommand(Command::SkipStep)),
        ParsedThing::ReplCommand(c) => Some(Step::ExecCommand(c)),
        ParsedThing::OpenTokenTree(_) => None,
        ParsedThing::Expr(t) => Some(Step::EvalExpr(t)),
        ParsedThing::Items(items) => Some(Step::AddItems(items)),
    }
}

/// Unfinished input with one more line appended.
pub fn continue_input(text: String, line: &str) -> (r: String)
    ensures
        r@ == text@ + seq!['\n'] + line@,
{
    let mut t = text;
    t.append("\n");
    proof { reveal_strlit("\n"); }
    t.append(line);
    t
}

} // verus!
