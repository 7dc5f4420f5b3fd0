//! The interactive shell: splitting a line into arguments, completing words, and deciding what a
//! line asks for.

use vstd::prelude::*;
use vstd::string::StringExecFns;
use vstd::utf8::{
    decode_utf8, encode_utf8, encode_utf8_decode_utf8, is_ascii_chars, is_ascii_chars_encode_utf8,
    is_char_boundary,
};

use crate::command::{parse_reboot, reboot_for, word_at, Finish};
use crate::text::{
    begins_with, chars_of, is_space, is_space_char, law_trimming, same_text, text_of, trim, trim_end,
    trim_start, trimmed, views,
};

verus! {

/// Commands the shell understands, also the tab-completion set.
pub const SHELL_COMMANDS: [&'static str; 17] = [
    "help",
    "pit",
    "print-pit",
    "dump-pit",
    "flash-plan",
    "flash",
    "factory-reset",
    "erase",
    "set-region",
    "flash-pit",
    "tar-list",
    "debug",
    "reboot",
    "end",
    "shutdown",
    "quit",
    "exit",
];

/// Commands whose arguments are file paths: their arguments get file name completion.
pub const FILE_COMMANDS: [&'static str; 5] = [
    "flash",
    "flash-plan",
    "dump-pit",
    "tar-list",
    "flash-pit",
];

/// How far a line has been split: the finished arguments, the one under way, whether a quote is
/// open, and whether there is an argument under way at all.
#[verifier::ext_equal]
pub struct Splitting {
    pub out: Seq<Seq<char>>,
    pub cur: Seq<char>,
    pub in_quote: bool,
    pub has_token: bool,
}

/// How a line is split one character further.
pub open spec fn split_step(s: Splitting, c: char) -> Splitting {
    if c == '"' {
        Splitting { in_quote: !s.in_quote, has_token: true, ..s }
    } else if is_space(c) && !s.in_quote {
        if s.has_token {
            Splitting {
                out: s.out.push(s.cur),
                cur: Seq::empty(),
                in_quote: false,
                has_token: false,
            }
        } else {
            s
        }
    } else {
        Splitting { cur: s.cur.push(c), has_token: true, ..s }
    }
}

/// How the characters of a line are split.
pub open spec fn splitting(line: Seq<char>) -> Splitting
    decreases line.len(),
{
    if line.len() == 0 {
        Splitting { out: Seq::empty(), cur: Seq::empty(), in_quote: false, has_token: false }
    } else {
        split_step(splitting(line.drop_last()), line.last())
    }
}

/// The arguments that splitting came to.
pub open spec fn split_result(s: Splitting) -> Seq<Seq<char>> {
    if s.has_token {
        s.out.push(s.cur)
    } else {
        s.out
    }
}

/// The arguments of a line: separated by whitespace outside double quotes, without the quotes.
/// A quote that is not closed runs to the end of the line.
pub open spec fn arguments(line: Seq<char>) -> Seq<Seq<char>> {
    split_result(splitting(line))
}

/// Split a shell line into arguments, honoring double quotes so paths with spaces work
/// (`flash "AP file.tar"`). An unclosed quote runs to end of line. Backslash escaping is
/// intentionally not supported: these are paths, not shell scripts.
pub fn split_args(line: &str) -> (r: Vec<String>)
    ensures
        views(r@) == arguments(line@),
{
    let chars = chars_of(line);
    let mut out: Vec<String> = Vec::new();
    let mut cur = String::new();
    let mut in_quote = false;
    let mut has_token = false;
    let mut i: usize = 0;
    proof {
        assert(line@.take(0).len() == 0);
        assert(views(out@) == Seq::<Seq<char>>::empty());
    }
    while i < chars.len()
        invariant
            i <= chars@.len(),
            chars@ == line@,
            splitting(line@.take(i as int)) == (Splitting {
                out: views(out@),
                cur: cur@,
                in_quote,
                has_token,
            }),
            !has_token ==> cur@ == Seq::<char>::empty(),
        decreases chars@.len() - i,
    {
        let ch: char = chars[i];
        let ghost before = views(out@);
        proof {
            assert(line@.take(i + 1).drop_last() == line@.take(i as int));
        }
        if ch == '"' {
            in_quote = !in_quote;
            has_token = true;
        } else if is_space_char(ch) && !in_quote {
            if has_token {
                let ghost word = cur@;
                out.push(cur);
                cur = String::new();
                has_token = false;
                assert(views(out@) == before.push(word));
            }
        } else {
            cur.push(ch);
            has_token = true;
        }
        i = i + 1;
    }
    assert(line@.take(i as int) == line@);
    if has_token {
        let ghost before = views(out@);
        let ghost word = cur@;
        out.push(cur);
        assert(views(out@) == before.push(word));
    }
    out
}

/// Characters without quotes inside an open quote all belong to the argument under way.
proof fn lemma_quoted(text: Seq<char>)
    requires
        forall|i: int| 0 <= i < text.len() ==> text[i] != '"',
    ensures
        splitting(seq!['"'] + text) == (Splitting {
            out: Seq::empty(),
            cur: text,
            in_quote: true,
            has_token: true,
        }),
    decreases text.len(),
{
    let line = seq!['"'] + text;
    if text.len() == 0 {
        assert(line.drop_last() == Seq::<char>::empty());
        assert(line.last() == '"');
        assert(splitting(Seq::<char>::empty()).out == Seq::<Seq<char>>::empty());
    } else {
        assert(line.drop_last() == seq!['"'] + text.drop_last());
        lemma_quoted(text.drop_last());
        assert(text.drop_last().push(text.last()) == text);
    }
}

/// A quoted text is one argument, whatever whitespace is in it, whether or not the quote is
/// closed.
pub proof fn law_quoted_text_is_one_argument(text: Seq<char>)
    requires
        forall|i: int| 0 <= i < text.len() ==> text[i] != '"',
    ensures
        arguments(seq!['"'] + text) == seq![text],
        arguments(seq!['"'] + text + seq!['"']) == seq![text],
{
    lemma_quoted(text);
    let open = seq!['"'] + text;
    let whole = open + seq!['"'];
    assert(whole.drop_last() == open);
    assert(Seq::<Seq<char>>::empty().push(text) == seq![text]);
}

/// Behind a separator, a line is split as if it began there.
proof fn lemma_split_behind(a: Seq<char>, sep: char, b: Seq<char>)
    requires
        is_space(sep),
        !splitting(a).in_quote,
    ensures
        ({
            let s = splitting(a + seq![sep] + b);
            let t = splitting(b);
            &&& s.out == arguments(a) + t.out
            &&& s.in_quote == t.in_quote
            &&& s.has_token == t.has_token
            &&& s.has_token ==> s.cur == t.cur
            &&& !s.has_token ==> s.cur == Seq::<char>::empty() && t.cur == Seq::<char>::empty()
        }),
    decreases b.len(),
{
    lemma_idle_is_empty(a);
    lemma_idle_is_empty(b);
    let whole = a + seq![sep] + b;
    if b.len() == 0 {
        assert(whole.drop_last() == a);
        assert(whole.last() == sep);
        assert(arguments(a) + splitting(b).out == arguments(a));
    } else {
        lemma_split_behind(a, sep, b.drop_last());
        assert(whole.drop_last() == a + seq![sep] + b.drop_last());
        let t = splitting(b.drop_last());
        assert(arguments(a) + t.out.push(t.cur) == (arguments(a) + t.out).push(t.cur));
    }
}

/// Where no argument is under way, none has begun.
proof fn lemma_idle_is_empty(line: Seq<char>)
    ensures
        !splitting(line).has_token ==> splitting(line).cur == Seq::<char>::empty(),
    decreases line.len(),
{
    if line.len() > 0 {
        lemma_idle_is_empty(line.drop_last());
    }
}

/// Lines joined by whitespace outside quotes have the arguments of the one and then of the other.
pub proof fn law_arguments_of_joined_lines(a: Seq<char>, sep: char, b: Seq<char>)
    requires
        is_space(sep),
        !splitting(a).in_quote,
    ensures
        arguments(a + seq![sep] + b) == arguments(a) + arguments(b),
{
    lemma_split_behind(a, sep, b);
    let t = splitting(b);
    assert(arguments(a) + t.out.push(t.cur) == (arguments(a) + t.out).push(t.cur));
}

/// Where the last word of a text starts: behind its last whitespace, or at its beginning.
pub open spec fn token_start(s: Seq<char>) -> int
    decreases s.len(),
{
    if s.len() == 0 {
        0
    } else if is_space(s.last()) {
        s.len() as int
    } else {
        token_start(s.drop_last())
    }
}

/// The text before the last word.
pub open spec fn before_token(s: Seq<char>) -> Seq<char> {
    s.take(token_start(s))
}

/// The last word.
pub open spec fn token(s: Seq<char>) -> Seq<char> {
    s.skip(token_start(s))
}

/// Where the last word starts, found from the end.
proof fn lemma_token_start(s: Seq<char>, k: int)
    requires
        0 <= k <= s.len(),
        forall|j: int| k <= j < s.len() ==> !is_space(s[j]),
        k > 0 ==> is_space(s[k - 1]),
    ensures
        token_start(s) == k,
    decreases s.len(),
{
    if k < s.len() {
        lemma_token_start(s.drop_last(), k);
    }
}

/// The number of characters before the last word.
fn token_chars(chars: &Vec<char>) -> (k: usize)
    ensures
        k == token_start(chars@),
        k <= chars@.len(),
{
    let mut k: usize = chars.len();
    while k > 0 && !is_space_char(chars[k - 1])
        invariant
            k <= chars@.len(),
            forall|j: int| k <= j < chars@.len() ==> !is_space(chars@[j]),
        decreases k,
    {
        k = k - 1;
    }
    proof {
        lemma_token_start(chars@, k as int);
    }
    k
}

/// Byte index just after the last whitespace character in `before` (0 if none), always a
/// character boundary.
pub fn last_token_start(before: &str) -> (n: usize)
    ensures
        n == encode_utf8(before_token(before@)).len(),
{
    let chars = chars_of(before);
    let k: usize = token_chars(&chars);
    let head: &str = before.substring_char(0, k);
    assert(head@ == before_token(before@));
    head.as_bytes().len()
}

/// How many bytes of a line count: up to the cursor, or all of them.
pub open spec fn cursor(line: Seq<char>, pos: int) -> int {
    if pos < encode_utf8(line).len() {
        pos
    } else {
        encode_utf8(line).len() as int
    }
}

/// The text before the cursor.
pub open spec fn typed(line: Seq<char>, pos: int) -> Seq<char> {
    decode_utf8(encode_utf8(line).subrange(0, cursor(line, pos)))
}

/// The text before the cursor.
fn typed_part<'a>(line: &'a str, pos: usize) -> (before: &'a str)
    requires
        is_char_boundary(encode_utf8(line@), cursor(line@, pos as int)),
    ensures
        before@ == typed(line@, pos as int),
{
    let len: usize = line.as_bytes().len();
    let mid: usize = if pos < len {
        pos
    } else {
        len
    };
    let (before, _) = line.split_at(mid);
    proof {
        encode_utf8_decode_utf8(before@);
    }
    before
}

/// The words of a list that begin with `head`.
pub open spec fn matching(words: Seq<Seq<char>>, head: Seq<char>) -> Seq<Seq<char>>
    decreases words.len(),
{
    if words.len() == 0 {
        Seq::empty()
    } else if head.is_prefix_of(words.last()) {
        matching(words.drop_last(), head).push(words.last())
    } else {
        matching(words.drop_last(), head)
    }
}

/// The texts behind a list of words.
pub open spec fn word_views(v: Seq<&str>) -> Seq<Seq<char>> {
    Seq::new(v.len(), |i: int| v[i]@)
}

/// The words of a list that begin with `head`.
fn matching_words(words: &[&str], head: &str) -> (r: Vec<String>)
    ensures
        views(r@) == matching(word_views(words@), head@),
{
    let ghost all = word_views(words@);
    let mut r: Vec<String> = Vec::new();
    let mut i: usize = 0;
    proof {
        assert(all.take(0).len() == 0);
        assert(views(r@) == Seq::<Seq<char>>::empty());
    }
    while i < words.len()
        invariant
            i <= words@.len(),
            all == word_views(words@),
            views(r@) == matching(all.take(i as int), head@),
        decreases words@.len() - i,
    {
        let ghost before = views(r@);
        let w: &str = words[i];
        proof {
            assert(all.take(i + 1).drop_last() == all.take(i as int));
            assert(all.take(i + 1).last() == w@);
        }
        if begins_with(w, head) {
            r.push(String::from_str(w));
            assert(views(r@) == before.push(w@));
        }
        i = i + 1;
    }
    assert(all.take(i as int) == all);
    r
}

/// What completing the first word offers: where the word starts, and the commands that begin
/// with it. Behind the first word nothing is offered.
pub open spec fn command_completion(before: Seq<char>, commands: Seq<Seq<char>>) -> (
    nat,
    Seq<Seq<char>>,
) {
    let start = encode_utf8(before_token(before)).len();
    if trimmed(before_token(before)).len() > 0 {
        (start, Seq::empty())
    } else {
        (start, matching(commands, token(before)))
    }
}

/// Tab-completion for the shell: complete the **first** word. Returns the replacement start
/// offset and the matching command names.
pub fn complete_command(line: &str, pos: usize, commands: &[&str]) -> (r: (usize, Vec<String>))
    requires
        is_char_boundary(encode_utf8(line@), cursor(line@, pos as int)),
    ensures
        (r.0 as nat, views(r.1@)) == command_completion(
            typed(line@, pos as int),
            word_views(commands@),
        ),
{
    let before: &str = typed_part(line, pos);
    let start: usize = last_token_start(before);
    let chars = chars_of(before);
    let k: usize = token_chars(&chars);
    let head = text_of(&chars, 0, k);
    assert(head@ == before_token(before@));
    let blank = trim(head.as_str());
    if !blank.as_str().is_empty() {
        let none: Vec<String> = Vec::new();
        assert(views(none@) == Seq::<Seq<char>>::empty());
        return (start, none);
    }
    let word = text_of(&chars, k, chars.len());
    assert(word@ == token(before@));
    (start, matching_words(commands, word.as_str()))
}

/// What completing a word offers.
pub enum Completion {
    /// These words, put in from this byte offset on.
    Words(usize, Vec<String>),
    /// File names.
    Files,
}

/// What completing a word offers, by content.
pub enum CompletionModel {
    Words(nat, Seq<Seq<char>>),
    Files,
}

impl View for Completion {
    type V = CompletionModel;

    open spec fn view(&self) -> CompletionModel {
        match self {
            Completion::Words(start, words) => CompletionModel::Words(
                *start as nat,
                views(words@),
            ),
            Completion::Files => CompletionModel::Files,
        }
    }
}

/// The characters of `s` before its first whitespace.
pub open spec fn until_space(s: Seq<char>) -> Seq<char>
    decreases s.len(),
{
    if s.len() == 0 || is_space(s[0]) {
        Seq::empty()
    } else {
        seq![s[0]] + until_space(s.drop_first())
    }
}

/// The first word of a text: empty where there is none.
pub open spec fn first_word(s: Seq<char>) -> Seq<char> {
    until_space(trim_start(s))
}

/// What the shell's completion offers: commands for the first word, `normal` and `download`
/// behind `reboot`, file names behind the commands that take files, and nothing elsewhere.
pub open spec fn shell_completion(before: Seq<char>) -> CompletionModel {
    let start = encode_utf8(before_token(before)).len();
    let cmd = first_word(before);
    if trimmed(before_token(before)).len() == 0 {
        CompletionModel::Words(start, matching(word_views(SHELL_COMMANDS@), token(before)))
    } else if cmd == "reboot"@ {
        CompletionModel::Words(start, matching(seq!["normal"@, "download"@], token(before)))
    } else if word_views(FILE_COMMANDS@).contains(cmd) {
        CompletionModel::Files
    } else {
        CompletionModel::Words(start, Seq::empty())
    }
}

/// `until_space` ends at the first whitespace.
proof fn lemma_until_space(s: Seq<char>, n: int)
    requires
        0 <= n <= s.len(),
        forall|j: int| 0 <= j < n ==> !is_space(s[j]),
        n < s.len() ==> is_space(s[n]),
    ensures
        until_space(s) == s.take(n),
    decreases n,
{
    if n > 0 {
        let t = s.drop_first();
        assert forall|j: int| 0 <= j < n - 1 implies !is_space(t[j]) by {
            assert(t[j] == s[j + 1]);
        }
        lemma_until_space(t, n - 1);
        assert(seq![s[0]] + t.take(n - 1) == s.take(n));
    } else {
        assert(s.take(0) == Seq::<char>::empty());
    }
}

/// The first word of a text.
fn read_first_word(chars: &Vec<char>) -> (w: String)
    ensures
        w@ == first_word(chars@),
{
    let mut from: usize = 0;
    while from < chars.len() && is_space_char(chars[from])
        invariant
            from <= chars@.len(),
            forall|j: int| 0 <= j < from ==> is_space(chars@[j]),
        decreases chars@.len() - from,
    {
        from = from + 1;
    }
    let mut to: usize = from;
    while to < chars.len() && !is_space_char(chars[to])
        invariant
            from <= to <= chars@.len(),
            forall|j: int| from <= j < to ==> !is_space(chars@[j]),
        decreases chars@.len() - to,
    {
        to = to + 1;
    }
    proof {
        crate::text::lemma_trim_start(chars@, from as int);
        let t = chars@.subrange(from as int, chars@.len() as int);
        assert forall|j: int| 0 <= j < to - from implies !is_space(t[j]) by {
            assert(t[j] == chars@[from + j]);
        }
        lemma_until_space(t, to - from);
        assert(t.take(to - from) == chars@.subrange(from as int, to as int));
    }
    text_of(chars, from, to)
}

/// Whether a word is in a list.
fn is_among(word: &str, words: &[&str]) -> (r: bool)
    ensures
        r == word_views(words@).contains(word@),
{
    let ghost all = word_views(words@);
    let mut i: usize = 0;
    while i < words.len()
        invariant
            i <= words@.len(),
            all == word_views(words@),
            forall|j: int| 0 <= j < i ==> all[j] != word@,
        decreases words@.len() - i,
    {
        if same_text(word, words[i]) {
            assert(all[i as int] == word@);
            return true;
        }
        i = i + 1;
    }
    false
}

/// Decide what completion offers at the cursor.
pub fn complete(line: &str, pos: usize) -> (r: Completion)
    requires
        is_char_boundary(encode_utf8(line@), cursor(line@, pos as int)),
    ensures
        r@ == shell_completion(typed(line@, pos as int)),
{
    let before: &str = typed_part(line, pos);
    let start: usize = last_token_start(before);
    let chars = chars_of(before);
    let k: usize = token_chars(&chars);
    let head = text_of(&chars, 0, k);
    assert(head@ == before_token(before@));
    let blank = trim(head.as_str());
    let word = text_of(&chars, k, chars.len());
    assert(word@ == token(before@));
    if blank.as_str().is_empty() {
        let (s, names) = complete_command(line, pos, &SHELL_COMMANDS);
        return Completion::Words(s, names);
    }
    let cmd = read_first_word(&chars);
    if same_text(cmd.as_str(), "reboot") {
        let modes: [&str; 2] = ["normal", "download"];
        assert(word_views(modes@) == seq!["normal"@, "download"@]);
        return Completion::Words(start, matching_words(&modes, word.as_str()));
    }
    if is_among(cmd.as_str(), &FILE_COMMANDS) {
        return Completion::Files;
    }
    let none: Vec<String> = Vec::new();
    assert(views(none@) == Seq::<Seq<char>>::empty());
    Completion::Words(start, none)
}

/// A completion only ever offers words that continue what was typed.
pub proof fn law_candidates_continue_the_word(words: Seq<Seq<char>>, head: Seq<char>, i: int)
    requires
        0 <= i < matching(words, head).len(),
    ensures
        head.is_prefix_of(matching(words, head)[i]),
        words.contains(matching(words, head)[i]),
    decreases words.len(),
{
    let before = words.drop_last();
    if i < matching(before, head).len() {
        law_candidates_continue_the_word(before, head, i);
        let k = before.index_of(matching(before, head)[i]);
        assert(words[k] == matching(words, head)[i]);
    } else {
        assert(words[words.len() - 1] == words.last());
    }
}

/// Every word that continues what was typed is offered.
pub proof fn law_no_candidate_is_missed(words: Seq<Seq<char>>, head: Seq<char>, i: int)
    requires
        0 <= i < words.len(),
        head.is_prefix_of(words[i]),
    ensures
        matching(words, head).contains(words[i]),
    decreases words.len(),
{
    let before = words.drop_last();
    if i < before.len() {
        law_no_candidate_is_missed(before, head, i);
        let k = matching(before, head).index_of(words[i]);
        assert(matching(words, head)[k] == words[i]);
    } else {
        assert(matching(words, head).last() == words[i]);
    }
}

/// The shell commands that take their own arguments.
#[derive(Debug, Clone, Copy, PartialEq, Eq, Structural)]
pub enum ShellCommand {
    Help,
    PrintPit,
    DumpPit,
    FlashPlan,
    Flash,
    FactoryReset,
    Erase,
    SetRegion,
    FlashPit,
    TarList,
}

/// What a shell line asks for.
pub enum ShellAction {
    /// Nothing: the line is blank.
    Nothing,
    /// Run a command with these arguments.
    Run(ShellCommand, Vec<String>),
    /// Show whether the wire trace is on.
    DebugShow,
    /// Turn the wire trace on or off, then show it.
    DebugSet(bool),
    /// Complain about a `debug` argument, then show whether the wire trace is on.
    DebugComplain(String),
    /// End the session this way and leave.
    Finish(Finish),
    /// Leave the device as it is.
    Leave,
    /// Complain and go on.
    Complain(String),
}

/// What a shell line asks for, by content.
pub enum ShellActionModel {
    Nothing,
    Run(ShellCommand, Seq<Seq<char>>),
    DebugShow,
    DebugSet(bool),
    DebugComplain(Seq<char>),
    Finish(Finish),
    Leave,
    Complain(Seq<char>),
}

impl View for ShellAction {
    type V = ShellActionModel;

    open spec fn view(&self) -> ShellActionModel {
        match self {
            ShellAction::Nothing => ShellActionModel::Nothing,
            ShellAction::Run(c, args) => ShellActionModel::Run(*c, views(args@)),
            ShellAction::DebugShow => ShellActionModel::DebugShow,
            ShellAction::DebugSet(on) => ShellActionModel::DebugSet(*on),
            ShellAction::DebugComplain(m) => ShellActionModel::DebugComplain(m@),
            ShellAction::Finish(f) => ShellActionModel::Finish(*f),
            ShellAction::Leave => ShellActionModel::Leave,
            ShellAction::Complain(m) => ShellActionModel::Complain(m@),
        }
    }
}

/// The command with its own arguments that a word names.
pub open spec fn runnable(word: Seq<char>) -> Option<ShellCommand> {
    if word == "help"@ || word == "?"@ {
        Some(ShellCommand::Help)
    } else if word == "pit"@ || word == "print-pit"@ {
        Some(ShellCommand::PrintPit)
    } else if word == "dump-pit"@ {
        Some(ShellCommand::DumpPit)
    } else if word == "flash-plan"@ {
        Some(ShellCommand::FlashPlan)
    } else if word == "flash"@ {
        Some(ShellCommand::Flash)
    } else if word == "factory-reset"@ {
        Some(ShellCommand::FactoryReset)
    } else if word == "erase"@ {
        Some(ShellCommand::Erase)
    } else if word == "set-region"@ {
        Some(ShellCommand::SetRegion)
    } else if word == "flash-pit"@ {
        Some(ShellCommand::FlashPit)
    } else if word == "tar-list"@ {
        Some(ShellCommand::TarList)
    } else {
        None
    }
}

fn runnable_word(word: &str) -> (r: Option<ShellCommand>)
    ensures
        r == runnable(word@),
{
    if same_text(word, "help") || same_text(word, "?") {
        Some(ShellCommand::Help)
    } else if same_text(word, "pit") || same_text(word, "print-pit") {
        Some(ShellCommand::PrintPit)
    } else if same_text(word, "dump-pit") {
        Some(ShellCommand::DumpPit)
    } else if same_text(word, "flash-plan") {
        Some(ShellCommand::FlashPlan)
    } else if same_text(word, "flash") {
        Some(ShellCommand::Flash)
    } else if same_text(word, "factory-reset") {
        Some(ShellCommand::FactoryReset)
    } else if same_text(word, "erase") {
        Some(ShellCommand::Erase)
    } else if same_text(word, "set-region") {
        Some(ShellCommand::SetRegion)
    } else if same_text(word, "flash-pit") {
        Some(ShellCommand::FlashPit)
    } else if same_text(word, "tar-list") {
        Some(ShellCommand::TarList)
    } else {
        None
    }
}

/// What the words of a shell line ask for.
pub open spec fn action_of(words: Seq<Seq<char>>) -> ShellActionModel {
    if words.len() == 0 {
        ShellActionModel::Nothing
    } else {
        let cmd = words[0];
        let arg = word_at(words, 1);
        match runnable(cmd) {
            Some(c) => ShellActionModel::Run(c, words.skip(1)),
            None => if cmd == "debug"@ {
                match arg {
                    None => ShellActionModel::DebugShow,
                    Some(a) => if a == "on"@ {
                        ShellActionModel::DebugSet(true)
                    } else if a == "off"@ {
                        ShellActionModel::DebugSet(false)
                    } else {
                        ShellActionModel::DebugComplain(
                            "unknown 'debug' argument '"@ + a + "' (use on | off)"@,
                        )
                    },
                }
            } else if cmd == "reboot"@ {
                match reboot_for(arg) {
                    Ok(f) => ShellActionModel::Finish(f),
                    Err(m) => ShellActionModel::Complain(m),
                }
            } else if cmd == "end"@ || cmd == "shutdown"@ {
                ShellActionModel::Finish(Finish::Shutdown)
            } else if cmd == "quit"@ || cmd == "exit"@ {
                ShellActionModel::Leave
            } else {
                ShellActionModel::Complain("unknown command '"@ + cmd + "' (try 'help')"@)
            },
        }
    }
}

/// Decide what a shell line asks for.
pub fn shell_action(line: &str) -> (r: ShellAction)
    ensures
        r@ == action_of(arguments(trimmed(line@))),
{
    let cleaned = trim(line);
    let words = split_args(cleaned.as_str());
    let ghost all = views(words@);
    if words.len() == 0 {
        return ShellAction::Nothing;
    }
    let cmd: &str = words[0].as_str();
    let arg: Option<&str> = if words.len() > 1 {
        Some(words[1].as_str())
    } else {
        None
    };
    assert(crate::command::str_view(arg) == word_at(all, 1));
    match runnable_word(cmd) {
        Some(c) => {
            let mut rest: Vec<String> = Vec::new();
            let mut i: usize = 1;
            while i < words.len()
                invariant
                    1 <= i <= words@.len(),
                    all == views(words@),
                    views(rest@) == all.subrange(1, i as int),
                decreases words@.len() - i,
            {
                let ghost before = views(rest@);
                rest.push(words[i].clone());
                i = i + 1;
                assert(views(rest@) == before.push(all[i - 1]));
                assert(all.subrange(1, i as int) == all.subrange(1, i - 1).push(all[i - 1]));
            }
            assert(all.subrange(1, i as int) == all.skip(1));
            return ShellAction::Run(c, rest);
        },
        None => {},
    }
    if same_text(cmd, "debug") {
        match arg {
            None => ShellAction::DebugShow,
            Some(a) => if same_text(a, "on") {
                ShellAction::DebugSet(true)
            } else if same_text(a, "off") {
                ShellAction::DebugSet(false)
            } else {
                let mut m = String::from_str("unknown 'debug' argument '");
                m.append(a);
                m.append("' (use on | off)");
                ShellAction::DebugComplain(m)
            },
        }
    } else if same_text(cmd, "reboot") {
        match parse_reboot(arg) {
            Ok(f) => ShellAction::Finish(f),
            Err(m) => ShellAction::Complain(m),
        }
    } else if same_text(cmd, "end") || same_text(cmd, "shutdown") {
        ShellAction::Finish(Finish::Shutdown)
    } else if same_text(cmd, "quit") || same_text(cmd, "exit") {
        ShellAction::Leave
    } else {
        let mut m = String::from_str("unknown command '");
        m.append(cmd);
        m.append("' (try 'help')");
        ShellAction::Complain(m)
    }
}

/// The shell understands every command that it offers to complete.
pub proof fn law_every_offered_command_is_understood(i: int)
    requires
        0 <= i < SHELL_COMMANDS@.len(),
    ensures
        action_of(seq![SHELL_COMMANDS@[i]@]) !is Complain,
        action_of(seq![SHELL_COMMANDS@[i]@]) !is Nothing,
{
    let words = seq![SHELL_COMMANDS@[i]@];
    assert(words[0] == SHELL_COMMANDS@[i]@);
    assert(word_at(words, 1) is None);
}

/// Whether a text has neither whitespace nor a quote in it.
pub open spec fn is_plain(s: Seq<char>) -> bool {
    forall|i: int| 0 <= i < s.len() ==> !is_space(#[trigger] s[i]) && s[i] != '"'
}

proof fn lemma_plain(word: Seq<char>)
    requires
        is_plain(word),
    ensures
        splitting(word) == (Splitting {
            out: Seq::empty(),
            cur: word,
            in_quote: false,
            has_token: word.len() > 0,
        }),
    decreases word.len(),
{
    if word.len() > 0 {
        let short = word.drop_last();
        assert forall|i: int| 0 <= i < short.len() implies !is_space(#[trigger] short[i])
            && short[i] != '"' by {
            assert(short[i] == word[i]);
        }
        lemma_plain(short);
        assert(!is_space(word[word.len() - 1]) && word[word.len() - 1] != '"');
        assert(short.push(word.last()) == word);
    } else {
        assert(word == Seq::<char>::empty());
    }
}

/// A word without whitespace and quotes is an argument, and the arguments of what stands behind it
/// follow it. Whitespace before an argument counts for nothing, and a blank line has no argument.
pub proof fn law_words_are_arguments(word: Seq<char>, sep: char, rest: Seq<char>)
    requires
        word.len() > 0,
        is_plain(word),
        is_space(sep),
    ensures
        arguments(Seq::empty()) == Seq::<Seq<char>>::empty(),
        arguments(word) == seq![word],
        arguments(word + seq![sep] + rest) == seq![word] + arguments(rest),
        arguments(seq![sep] + rest) == arguments(rest),
{
    lemma_plain(word);
    let none = Seq::<char>::empty();
    lemma_plain(none);
    assert(Seq::<Seq<char>>::empty().push(word) == seq![word]);
    law_arguments_of_joined_lines(word, sep, rest);
    law_arguments_of_joined_lines(none, sep, rest);
    assert(none + seq![sep] + rest == seq![sep] + rest);
    assert(arguments(none) + arguments(rest) == arguments(rest));
}

/// A quoted text is one argument, whatever whitespace is in it, and the arguments of what stands behind
/// it follow it.
pub proof fn law_quoted_arguments_are_kept_whole(text: Seq<char>, sep: char, rest: Seq<char>)
    requires
        forall|i: int| 0 <= i < text.len() ==> text[i] != '"',
        is_space(sep),
    ensures
        arguments(seq!['"'] + text + seq!['"'] + seq![sep] + rest) == seq![text] + arguments(rest),
{
    law_quoted_text_is_one_argument(text);
    lemma_quoted(text);
    let open = seq!['"'] + text;
    let whole = open + seq!['"'];
    assert(whole.drop_last() == open);
    law_arguments_of_joined_lines(whole, sep, rest);
}

/// The word under the cursor is what stands behind the last whitespace.
pub proof fn law_last_word_is_completed(before: Seq<char>, sep: char, word: Seq<char>)
    requires
        is_space(sep),
        forall|i: int| 0 <= i < word.len() ==> !is_space(#[trigger] word[i]),
    ensures
        token(word) == word,
        before_token(word) == Seq::<char>::empty(),
        token(before + seq![sep] + word) == word,
        before_token(before + seq![sep] + word) == before + seq![sep],
{
    lemma_token_start(word, 0);
    assert(word.skip(0) == word && word.take(0) == Seq::<char>::empty());
    let s = before + seq![sep] + word;
    let k = before.len() + 1;
    assert forall|j: int| k <= j < s.len() implies !is_space(s[j]) by {
        assert(s[j] == word[j - k]);
    }
    assert(s[k - 1] == sep);
    lemma_token_start(s, k as int);
    assert(s.skip(k as int) == word);
    assert(s.take(k as int) == before + seq![sep]);
}

/// The first word of a line is completed to a command of the shell.
pub proof fn law_first_word_is_completed_to_a_command(word: Seq<char>)
    requires
        forall|i: int| 0 <= i < word.len() ==> !is_space(#[trigger] word[i]),
    ensures
        shell_completion(word) == CompletionModel::Words(
            0,
            matching(word_views(SHELL_COMMANDS@), word),
        ),
{
    let none = Seq::<char>::empty();
    law_last_word_is_completed(none, ' ', word);
    law_trimming(none, none, none);
    assert(none + none + none == none);
    assert(encode_utf8(none).len() == 0) by {
        assert(is_ascii_chars(none));
        is_ascii_chars_encode_utf8(none);
    }
}

/// Behind a command that takes files, file names are completed; behind `reboot`, its two modes; behind
/// any other word, nothing.
#[verifier::spinoff_prover]
pub proof fn law_arguments_are_completed_by_command(cmd: Seq<char>, sep: char, rest: Seq<char>)
    requires
        cmd.len() > 0,
        is_plain(cmd),
        is_space(sep),
    ensures
        ({
            let line = cmd + seq![sep] + rest;
            let takes_files = cmd == "flash"@ || cmd == "flash-plan"@ || cmd == "dump-pit"@ || cmd
                == "tar-list"@ || cmd == "flash-pit"@;
            &&& takes_files ==> shell_completion(line) == CompletionModel::Files
            &&& cmd == "reboot"@ ==> shell_completion(line) == CompletionModel::Words(
                encode_utf8(before_token(line)).len(),
                matching(seq!["normal"@, "download"@], token(line)),
            )
            &&& !takes_files && cmd != "reboot"@ ==> shell_completion(line)
                == CompletionModel::Words(encode_utf8(before_token(line)).len(), Seq::empty())
        }),
{
    let line = cmd + seq![sep] + rest;
    assert(!is_space(cmd[0]));
    assert(line[0] == cmd[0]);
    assert(trim_start(line) == line);
    assert forall|j: int| 0 <= j < cmd.len() implies !is_space(line[j]) by {
        assert(line[j] == cmd[j]);
    }
    assert(line[cmd.len() as int] == sep);
    lemma_until_space(line, cmd.len() as int);
    assert(line.take(cmd.len() as int) == cmd);
    lemma_token_starts_behind(line, cmd.len() as int);
    let head = before_token(line);
    assert(head[0] == cmd[0]);
    lemma_trimmed_is_something(head);
    let files = word_views(FILE_COMMANDS@);
    assert(files[0] == "flash"@ && files[1] == "flash-plan"@ && files[2] == "dump-pit"@ && files[3]
        == "tar-list"@ && files[4] == "flash-pit"@ && files.len() == 5);
    if files.contains(cmd) {
        let i = choose|i: int| 0 <= i < files.len() && files[i] == cmd;
        assert(i == 0 || i == 1 || i == 2 || i == 3 || i == 4);
    }
    assert("reboot"@ != "flash"@ && "reboot"@ != "flash-plan"@ && "reboot"@ != "dump-pit"@
        && "reboot"@ != "tar-list"@ && "reboot"@ != "flash-pit"@) by {
        reveal_strlit("reboot");
        reveal_strlit("flash");
        reveal_strlit("flash-plan");
        reveal_strlit("dump-pit");
        reveal_strlit("tar-list");
        reveal_strlit("flash-pit");
        assert("reboot"@[0] == 'r' && "flash"@[0] == 'f' && "flash-plan"@[0] == 'f'
            && "dump-pit"@[0] == 'd' && "tar-list"@[0] == 't' && "flash-pit"@[0] == 'f');
    }
}

proof fn lemma_token_starts_behind(s: Seq<char>, k: int)
    requires
        0 <= k < s.len(),
        is_space(s[k]),
    ensures
        k < token_start(s) <= s.len(),
    decreases s.len(),
{
    if !is_space(s.last()) {
        lemma_token_starts_behind(s.drop_last(), k);
    }
}

proof fn lemma_trimmed_is_something(s: Seq<char>)
    requires
        s.len() > 0,
        !is_space(s[0]),
    ensures
        trimmed(s).len() > 0,
{
    assert(trim_start(s) == s);
    lemma_end_keeps_the_first(s);
}

proof fn lemma_end_keeps_the_first(s: Seq<char>)
    requires
        s.len() > 0,
        !is_space(s[0]),
    ensures
        trim_end(s).len() > 0,
    decreases s.len(),
{
    if is_space(s.last()) {
        lemma_end_keeps_the_first(s.drop_last());
    }
}

/// A command that takes its own arguments gets all of them, in order.
pub proof fn law_commands_get_their_arguments(cmd: Seq<char>, rest: Seq<Seq<char>>)
    ensures
        runnable(cmd) matches Some(c) ==> action_of(seq![cmd] + rest) == ShellActionModel::Run(
            c,
            rest,
        ),
        action_of(Seq::empty()) == ShellActionModel::Nothing,
{
    let words = seq![cmd] + rest;
    assert(words[0] == cmd);
    assert(words.skip(1) == rest);
}

} // verus!
