//! What the hook client reads out of a transcript of the agent harness: the session's
//! name, its first prompt, the size of its context, and a subagent's task.
//!
//! A transcript grows for the whole life of a session, so the files are read
//! in pieces by the program; what is here decides, piece by piece and line by
//! line, what those pieces say. Parsing a line as JSON is the program's too:
//! the decisions here take the parsed value.
use vstd::prelude::*;

use crate::events::{field_of, opt_str, opt_view, text_field, Json};
use crate::hook::{ascii_bytes, push_literal};
use crate::text::{join, trim_start, views};

verus! {

/// How much of the transcript a title scan covers.
#[derive(Debug, Clone, Copy, PartialEq, Eq, Structural)]
pub enum TitleScan {
    /// Every line of the file, which `SessionStart` does once per session.
    WholeFile,
    /// Only the tail of the file; the title line is written again as the
    /// session goes on, so a rename is picked up at one of the next events.
    TailWindow,
}

/// The scan a hook event asks for: the whole file at `SessionStart`, the tail
/// otherwise.
pub open spec fn title_scan_for(event_name: Option<Seq<char>>) -> TitleScan {
    if event_name == Some("SessionStart"@) {
        TitleScan::WholeFile
    } else {
        TitleScan::TailWindow
    }
}

/// The scan a hook event asks for, by the event's name.
pub fn title_scan(event_name: Option<&str>) -> (scan: TitleScan)
    ensures
        scan == title_scan_for(opt_str(event_name)),
{
    match event_name {
        Some(name) => {
            let chars = crate::text::chars_of(name);
            let start = crate::text::chars_of("SessionStart");
            if crate::text::same_chars(&chars, &start) {
                TitleScan::WholeFile
            } else {
                TitleScan::TailWindow
            }
        },
        None => TitleScan::TailWindow,
    }
}

/// The three lines that name a session, in the order one wins over another:
/// the title the user set, the title the harness generated, and the summary a
/// compaction wrote.
#[derive(Debug, Clone, Copy, PartialEq, Eq, Structural)]
pub enum TitleKind {
    /// A `custom-title` line, carrying `customTitle`.
    Custom,
    /// An `ai-title` line, carrying `aiTitle`.
    Generated,
    /// A `summary` line, carrying `summary`.
    Summary,
}

/// What a line of one kind starts with: the harness writes the object with
/// `type` first, so every other line can be skipped without being parsed.
pub open spec fn title_prefix(kind: TitleKind) -> Seq<u8> {
    match kind {
        TitleKind::Custom => ascii_bytes("{\"type\":\"custom-title\""@),
        TitleKind::Generated => ascii_bytes("{\"type\":\"ai-title\""@),
        TitleKind::Summary => ascii_bytes("{\"type\":\"summary\""@),
    }
}

/// A title line is about a hundred bytes; one that starts like one and runs
/// past this many is not one.
pub const MAXIMUM_TITLE_LINE_BYTES: usize = 65536;

/// The bytes of the title line prefix.
fn title_line_prefix(kind: TitleKind) -> (prefix: Vec<u8>)
    ensures
        prefix@ == title_prefix(kind),
{
    let mut prefix: Vec<u8> = Vec::new();
    match kind {
        TitleKind::Custom => push_literal(&mut prefix, "{\"type\":\"custom-title\""),
        TitleKind::Generated => push_literal(&mut prefix, "{\"type\":\"ai-title\""),
        TitleKind::Summary => push_literal(&mut prefix, "{\"type\":\"summary\""),
    }
    prefix
}

/// Whether a line that begins with `line` could still be a title line: it is
/// within the length limit, and it agrees with the prefix as far as both go.
pub open spec fn may_be_title(kind: TitleKind, line: Seq<u8>) -> bool {
    let p = title_prefix(kind);
    &&& line.len() <= MAXIMUM_TITLE_LINE_BYTES
    &&& if line.len() < p.len() {
        p.take(line.len() as int) == line
    } else {
        line.take(p.len() as int) == p
    }
}

/// Whether a complete line is a title line.
pub open spec fn is_title_line(kind: TitleKind, line: Seq<u8>) -> bool {
    line.len() >= title_prefix(kind).len() && line.take(title_prefix(kind).len() as int) == title_prefix(kind)
}

/// What the scanner holds, as plain values.
pub struct ScanView {
    /// The kind of line looked for.
    pub kind: TitleKind,
    /// The current line so far, while it can still be a title line.
    pub line: Seq<u8>,
    /// The current line cannot be a title line, so its bytes are dropped.
    pub skipping: bool,
    /// The last complete title line seen.
    pub last: Option<Seq<u8>>,
}

/// The scanner after a newline.
pub open spec fn line_ended(v: ScanView) -> ScanView {
    ScanView {
        kind: v.kind,
        line: Seq::empty(),
        skipping: false,
        last: if !v.skipping && is_title_line(v.kind, v.line) {
            Some(v.line)
        } else {
            v.last
        },
    }
}

/// The scanner after one more byte.
pub open spec fn byte_step(v: ScanView, b: u8) -> ScanView {
    if b == 10 {
        line_ended(v)
    } else if v.skipping {
        v
    } else if may_be_title(v.kind, v.line.push(b)) {
        ScanView { line: v.line.push(b), ..v }
    } else {
        ScanView { line: Seq::empty(), skipping: true, ..v }
    }
}

/// The scanner after every byte of `s`, one at a time.
pub open spec fn scan(v: ScanView, s: Seq<u8>) -> ScanView
    decreases s.len(),
{
    if s.len() == 0 {
        v
    } else {
        byte_step(scan(v, s.drop_last()), s.last())
    }
}

/// The scanner before any byte: a scan that starts in the middle of the file
/// drops what comes before the first newline.
pub open spec fn scan_start(kind: TitleKind, starts_mid_line: bool) -> ScanView {
    ScanView { kind, line: Seq::empty(), skipping: starts_mid_line, last: None }
}

/// An empty line can still be a title line.
proof fn lemma_empty_may_be_title(kind: TitleKind)
    ensures
        may_be_title(kind, Seq::<u8>::empty()),
{
    let p = title_prefix(kind);
    let e = Seq::<u8>::empty();
    if p.len() > 0 {
        assert(p.take(0) =~= e);
    } else {
        assert(e.take(0) =~= p);
    }
}

/// A newline ends the line.
proof fn lemma_scan_newline(v: ScanView)
    ensures
        scan(v, seq![10u8]) == line_ended(v),
{
    let one = seq![10u8];
    assert(one.drop_last() =~= Seq::<u8>::empty());
    assert(scan(v, one.drop_last()) == v);
    assert(one.last() == 10u8);
}

/// Feeding a stream in two pieces is feeding it whole.
pub proof fn lemma_scan_append(v: ScanView, a: Seq<u8>, b: Seq<u8>)
    ensures
        scan(v, a + b) == scan(scan(v, a), b),
    decreases b.len(),
{
    if b.len() == 0 {
        assert(a + b =~= a);
    } else {
        lemma_scan_append(v, a, b.drop_last());
        assert((a + b).drop_last() =~= a + b.drop_last());
        assert((a + b).last() == b.last());
    }
}

/// A line that can no longer be a title line stays so however it goes on.
proof fn lemma_may_be_title_shrinks(kind: TitleKind, line: Seq<u8>, b: u8)
    requires
        may_be_title(kind, line.push(b)),
    ensures
        may_be_title(kind, line),
{
    let p = title_prefix(kind);
    let l = line.push(b);
    if line.len() < p.len() {
        if l.len() < p.len() {
            assert(p.take(line.len() as int) =~= l.take(line.len() as int));
            assert(l.take(line.len() as int) =~= line);
        } else {
            assert(l.take(p.len() as int) == p);
            assert(p.take(line.len() as int) =~= line);
        }
    } else {
        assert(line.take(p.len() as int) =~= l.take(p.len() as int));
    }
}

/// Scanning a piece with no newline in it: the piece joins the line when the
/// line can still be a title line after it, and the line is dropped otherwise.
proof fn lemma_scan_piece(v: ScanView, part: Seq<u8>)
    requires
        forall|k: int| 0 <= k < part.len() ==> part[k] != 10,
        !v.skipping ==> may_be_title(v.kind, v.line),
        v.skipping ==> v.line.len() == 0,
    ensures
        scan(v, part) == (if v.skipping {
            v
        } else if may_be_title(v.kind, v.line + part) {
            ScanView { line: v.line + part, ..v }
        } else {
            ScanView { line: Seq::empty(), skipping: true, ..v }
        }),
    decreases part.len(),
{
    if part.len() == 0 {
        assert(v.line + part =~= v.line);
    } else {
        let front = part.drop_last();
        lemma_scan_piece(v, front);
        let b = part.last();
        assert(v.line + part =~= (v.line + front).push(b));
        if !v.skipping && !may_be_title(v.kind, v.line + front) && may_be_title(v.kind, v.line + part) {
            lemma_may_be_title_shrinks(v.kind, v.line + front, b);
        }
    }
}

/// The last line of one kind in a byte stream fed to it in arbitrary pieces.
///
/// It holds the current line only while that line can still turn out to be
/// one of its kind, so a transcript of any size costs it a few hundred bytes.
pub struct TitleLineScanner {
    /// The kind of line looked for.
    kind: TitleKind,
    /// The current line so far.
    line: Vec<u8>,
    /// The current line cannot be a title line, so its bytes are dropped.
    skipping: bool,
    /// The last complete title line seen, kept unparsed.
    last_title_line: Option<Vec<u8>>,
}

/// The view of an optional byte string.
pub open spec fn opt_bytes(o: Option<Vec<u8>>) -> Option<Seq<u8>> {
    match o {
        Some(v) => Some(v@),
        None => None,
    }
}

impl View for TitleLineScanner {
    type V = ScanView;

    closed spec fn view(&self) -> ScanView {
        ScanView { kind: self.kind, line: self.line@, skipping: self.skipping, last: opt_bytes(self.last_title_line) }
    }
}

impl TitleLineScanner {
    /// What a scanner always keeps: a line that is being dropped holds no
    /// bytes, and one that is kept can still be a title line.
    pub closed spec fn well_formed(&self) -> bool {
        &&& self.skipping ==> self.line@.len() == 0
        &&& !self.skipping ==> may_be_title(self.kind, self.line@)
    }

    /// A scanner before any byte. `starts_mid_line` says the first bytes fed
    /// in belong to a line that started before the scan did, so they are
    /// dropped up to the first newline.
    pub fn new(kind: TitleKind, starts_mid_line: bool) -> (scanner: TitleLineScanner)
        ensures
            scanner@ == scan_start(kind, starts_mid_line),
            scanner.well_formed(),
    {
        let s = TitleLineScanner { kind, line: Vec::new(), skipping: starts_mid_line, last_title_line: None };
        proof {
            lemma_empty_may_be_title(kind);
            assert(s.line@ =~= Seq::<u8>::empty());
        }
        s
    }

    /// The last complete title line seen, unparsed.
    pub fn last_title_line(&self) -> (line: Option<Vec<u8>>)
        ensures
            opt_bytes(line) == self@.last,
    {
        match &self.last_title_line {
            Some(l) => Some(l.clone()),
            None => None,
        }
    }

    /// Take the next piece of the stream. Pieces may split a line anywhere.
    pub fn consume(&mut self, bytes: &[u8])
        requires
            old(self).well_formed(),
        ensures
            final(self).well_formed(),
            final(self)@ == scan(old(self)@, bytes@),
    {
        let ghost start = self@;
        let mut pos: usize = 0;
        assert(bytes@.take(0) =~= Seq::<u8>::empty());
        loop
            invariant
                pos <= bytes@.len(),
                start == old(self)@,
                self.well_formed(),
                self@ == scan(start, bytes@.take(pos as int)),
            decreases bytes@.len() - pos,
        {
            let rest = vstd::slice::slice_subrange(bytes, pos, bytes.len());
            let ghost pre = bytes@.take(pos as int);
            match next_newline(rest) {
                Some(newline) => {
                    let part = vstd::slice::slice_subrange(rest, 0, newline);
                    self.extend(part);
                    let ghost mid = self@;
                    self.end_line();
                    proof {
                        lemma_scan_append(start, pre, part@);
                        lemma_scan_newline(mid);
                        lemma_scan_append(start, pre + part@, seq![10u8]);
                        assert(pre + part@ + seq![10u8] =~= bytes@.take(pos + newline + 1));
                    }
                    pos = pos + newline + 1;
                },
                None => {
                    self.extend(rest);
                    proof {
                        lemma_scan_append(start, pre, rest@);
                        assert(pre + rest@ =~= bytes@);
                    }
                    return;
                },
            }
        }
    }

    /// Add a piece of the current line, unless this line is already out.
    fn extend(&mut self, part: &[u8])
        requires
            old(self).well_formed(),
            forall|k: int| 0 <= k < part@.len() ==> part@[k] != 10,
        ensures
            final(self).well_formed(),
            final(self)@ == scan(old(self)@, part@),
    {
        proof {
            lemma_scan_piece(self@, part@);
        }
        if self.skipping {
            return;
        }
        let mut i: usize = 0;
        let ghost line0 = self.line@;
        while i < part.len()
            invariant
                i <= part@.len(),
                self.line@ == line0 + part@.take(i as int),
                !self.skipping,
                self.last_title_line == old(self).last_title_line,
                self.kind == old(self).kind,
            decreases part.len() - i,
        {
            self.line.push(part[i]);
            assert(line0 + part@.take(i + 1) =~= (line0 + part@.take(i as int)).push(part@[i as int]));
            i += 1;
        }
        assert(part@.take(part@.len() as int) =~= part@);
        if !can_still_be_a_title_line(self.kind, &self.line) {
            self.skipping = true;
            self.line.clear();
        }
    }

    /// A newline arrived. A line the stream ends in the middle of never gets
    /// here, which is how an unfinished last line is discarded.
    fn end_line(&mut self)
        requires
            old(self).well_formed(),
        ensures
            final(self).well_formed(),
            final(self)@ == line_ended(old(self)@),
    {
        let prefix = title_line_prefix(self.kind);
        if !self.skipping && crate::transcript::starts_with_bytes(&self.line, &prefix) {
            let mut taken: Vec<u8> = Vec::new();
            std::mem::swap(&mut taken, &mut self.line);
            self.last_title_line = Some(taken);
        }
        self.skipping = false;
        self.line.clear();
        proof {
            lemma_empty_may_be_title(self.kind);
            assert(self.line@ =~= Seq::<u8>::empty());
        }
    }
}

/// Whether `s` starts with `p`.
pub fn starts_with_bytes(s: &[u8], p: &[u8]) -> (starts: bool)
    ensures
        starts == (s@.len() >= p@.len() && s@.take(p@.len() as int) == p@),
{
    if s.len() < p.len() {
        return false;
    }
    let mut i: usize = 0;
    while i < p.len()
        invariant
            p.len() <= s.len(),
            i <= p.len(),
            s@.take(i as int) == p@.take(i as int),
        decreases p.len() - i,
    {
        if s[i] != p[i] {
            assert(s@.take(p@.len() as int)[i as int] != p@[i as int]);
            return false;
        }
        assert(s@.take(i + 1) =~= s@.take(i as int).push(s@[i as int]));
        assert(p@.take(i + 1) =~= p@.take(i as int).push(p@[i as int]));
        i += 1;
    }
    assert(p@.take(i as int) =~= p@);
    true
}

/// Whether a line that begins with these bytes could still be a line of this
/// kind.
pub fn can_still_be_a_title_line(kind: TitleKind, line: &[u8]) -> (may: bool)
    ensures
        may == may_be_title(kind, line@),
{
    if line.len() > MAXIMUM_TITLE_LINE_BYTES {
        return false;
    }
    let prefix = title_line_prefix(kind);
    if line.len() < prefix.len() {
        starts_with_bytes(&prefix, line)
    } else {
        starts_with_bytes(line, &prefix)
    }
}

/// Offset of the first newline in `haystack`.
pub fn position_of_newline(haystack: &[u8]) -> (found: Option<usize>)
    ensures
        match found {
            Some(k) => k < haystack@.len() && haystack@[k as int] == 10 && forall|j: int|
                0 <= j < k ==> haystack@[j] != 10,
            None => forall|j: int| 0 <= j < haystack@.len() ==> haystack@[j] != 10,
        },
{
    let mut i: usize = 0;
    while i < haystack.len()
        invariant
            i <= haystack@.len(),
            forall|j: int| 0 <= j < i ==> haystack@[j] != 10,
        decreases haystack.len() - i,
    {
        if haystack[i] == 10 {
            return Some(i);
        }
        i += 1;
    }
    None
}

/// Offset of the next newline in `haystack`.
pub fn next_newline(haystack: &[u8]) -> (found: Option<usize>)
    ensures
        match found {
            Some(k) => k < haystack@.len() && haystack@[k as int] == 10 && forall|j: int|
                0 <= j < k ==> haystack@[j] != 10,
            None => forall|j: int| 0 <= j < haystack@.len() ==> haystack@[j] != 10,
        },
{
    position_of_newline(haystack)
}


/// Whether `needle` occurs in `haystack` at `i`.
pub open spec fn occurs_at(haystack: Seq<u8>, needle: Seq<u8>, i: int) -> bool {
    0 <= i && i + needle.len() <= haystack.len() && haystack.subrange(i, i + needle.len()) == needle
}

/// Whether `needle` occurs anywhere in `haystack`.
pub fn contains(haystack: &[u8], needle: &[u8]) -> (found: bool)
    requires
        needle@.len() > 0,
    ensures
        found == exists|i: int| occurs_at(haystack@, needle@, i),
{
    if needle.len() > haystack.len() {
        return false;
    }
    let mut i: usize = 0;
    let last = haystack.len() - needle.len();
    while i <= last
        invariant
            0 < needle@.len() <= haystack@.len(),
            last == haystack@.len() - needle@.len(),
            i <= last + 1,
            forall|j: int| 0 <= j < i ==> !occurs_at(haystack@, needle@, j),
        decreases haystack.len() - i,
    {
        let window = vstd::slice::slice_subrange(haystack, i, i + needle.len());
        if starts_with_bytes(window, needle) {
            assert(window@.take(needle@.len() as int) =~= window@);
            assert(occurs_at(haystack@, needle@, i as int));
            return true;
        }
        assert(window@.take(needle@.len() as int) =~= window@);
        i += 1;
    }
    false
}

/// The first `limit` characters of a text, or all of it when it is shorter.
pub open spec fn first_chars(text: Seq<char>, limit: nat) -> Seq<char> {
    if text.len() > limit {
        text.take(limit as int)
    } else {
        text
    }
}

/// The first `limit` characters of `text`. Cutting by character rather than
/// by byte keeps a text whose last kept character is not ASCII from being
/// split down the middle of it.
pub fn cut_to_characters(text: &str, limit: usize) -> (cut: String)
    ensures
        cut@ == first_chars(text@, limit as nat),
{
    let chars = crate::text::chars_of(text);
    if chars.len() > limit {
        let kept = vstd::slice::slice_subrange(chars.as_slice(), 0, limit);
        crate::text::string_of(kept)
    } else {
        text.to_owned()
    }
}

/// How much of the first prompt, or of a subagent's task, is kept: enough to
/// tell two apart in a list, short enough that a pasted file does not travel
/// with every hook event.
pub const PROMPT_CHARACTERS: usize = 200;

/// What marks the line carrying the first prompt, somewhere inside it.
pub open spec fn user_line_marker() -> Seq<u8> {
    ascii_bytes("\"type\":\"user\""@)
}

/// Whether a transcript line may carry the first prompt, so that it is worth
/// parsing at all.
pub fn looks_like_user_line(line: &[u8]) -> (may: bool)
    ensures
        may == exists|i: int| occurs_at(line@, user_line_marker(), i),
{
    let mut marker: Vec<u8> = Vec::new();
    push_literal(&mut marker, "\"type\":\"user\"");
    proof {
        reveal_strlit("\"type\":\"user\"");
        assert(marker@ =~= user_line_marker());
    }
    contains(line, &marker)
}

/// The boolean field `name` of `v`, when there is one.
pub open spec fn bool_field(v: Json, name: Seq<char>) -> Option<bool> {
    match field_of(v, name) {
        Some(f) => crate::events::bool_of(f),
        None => None,
    }
}

/// The texts of the blocks of type `text`, in order.
pub open spec fn block_texts(blocks: Seq<Json>) -> Seq<Seq<char>>
    decreases blocks.len(),
{
    if blocks.len() == 0 {
        Seq::empty()
    } else {
        let earlier = block_texts(blocks.drop_last());
        let b = blocks.last();
        if text_field(b, "type"@) == Some("text"@) {
            match text_field(b, "text"@) {
                Some(t) => earlier.push(t),
                None => earlier,
            }
        } else {
            earlier
        }
    }
}

/// What a user line says in the user's own words, before it is judged: a
/// plain prompt's string, or the text blocks of a prompt written as blocks,
/// joined by newlines. `None` for a line that is not a user line or is one the
/// harness marked as its own.
pub open spec fn said_in(parsed: Json) -> Option<Seq<char>> {
    if text_field(parsed, "type"@) != Some("user"@) {
        None
    } else if bool_field(parsed, "isMeta"@) == Some(true) {
        None
    } else {
        match field_of(parsed, "message"@) {
            Some(m) => match field_of(m, "content"@) {
                Some(Json::Text(t)) => Some(t@),
                Some(Json::Array(blocks)) => Some(join(block_texts(blocks@), seq!['\n'])),
                _ => None,
            },
            None => None,
        }
    }
}

/// The first prompt a user line carries: what it says, unless that is empty
/// after its leading whitespace or opens with `<` as every block the harness
/// writes does; cut to [`PROMPT_CHARACTERS`] characters.
pub open spec fn prompt_in(parsed: Json) -> Option<Seq<char>> {
    match said_in(parsed) {
        Some(p) => {
            let opening = trim_start(p);
            if opening.len() == 0 || opening[0] == '<' {
                None
            } else {
                Some(first_chars(p, PROMPT_CHARACTERS as nat))
            }
        },
        None => None,
    }
}

/// The texts of the text blocks of a prompt written as blocks.
fn texts_of_blocks(blocks: &Vec<Json>) -> (texts: Vec<Vec<char>>)
    ensures
        views(texts@) == block_texts(blocks@),
{
    let mut texts: Vec<Vec<char>> = Vec::new();
    let mut i: usize = 0;
    while i < blocks.len()
        invariant
            i <= blocks@.len(),
            views(texts@) == block_texts(blocks@.take(i as int)),
        decreases blocks.len() - i,
    {
        let block = &blocks[i];
        proof {
            assert(blocks@.take(i + 1).drop_last() =~= blocks@.take(i as int));
            reveal_strlit("type");
            reveal_strlit("text");
        }
        let kind = match block.get("type") {
            Some(k) => k.as_str(),
            None => None,
        };
        let is_text = match kind {
            Some(k) => {
                let chars = crate::text::chars_of(k);
                let text_word = crate::text::chars_of("text");
                crate::text::same_chars(&chars, &text_word)
            },
            None => false,
        };
        if is_text {
            match block.get("text") {
                Some(t) => match t.as_str() {
                    Some(words) => {
                        let ghost before = texts@;
                        texts.push(crate::text::chars_of(words));
                        assert(views(texts@) =~= views(before).push(words@));
                    },
                    None => {},
                },
                None => {},
            }
        }
        i += 1;
    }
    assert(blocks@.take(blocks@.len() as int) =~= blocks@);
    texts
}

/// Whether the text field `name` of `v` is `expected`.
fn text_field_is(v: &Json, name: &str, expected: &str) -> (is: bool)
    ensures
        is == (text_field(*v, name@) == Some(expected@)),
{
    match v.get(name) {
        Some(f) => match f.as_str() {
            Some(t) => {
                let a = crate::text::chars_of(t);
                let b = crate::text::chars_of(expected);
                crate::text::same_chars(&a, &b)
            },
            None => false,
        },
        None => false,
    }
}

/// What a parsed user line says, before it is judged.
fn said(parsed: &Json) -> (text: Option<Vec<char>>)
    ensures
        match text {
            Some(t) => said_in(*parsed) == Some(t@),
            None => said_in(*parsed) is None,
        },
{
    if !text_field_is(parsed, "type", "user") {
        return None;
    }
    let meta = match parsed.get("isMeta") {
        Some(f) => f.as_bool(),
        None => None,
    };
    if meta == Some(true) {
        return None;
    }
    let message = match parsed.get("message") {
        Some(m) => m,
        None => return None,
    };
    match message.get("content") {
        Some(Json::Text(t)) => Some(crate::text::chars_of(t.as_str())),
        Some(Json::Array(blocks)) => {
            let texts = texts_of_blocks(blocks);
            assert(views(texts@).take(texts@.len() as int) =~= views(texts@));
            Some(crate::text::join_chars(&texts, texts.len(), '\n'))
        },
        _ => None,
    }
}

/// The user's own words in a parsed transcript line, or `None` if the line is
/// not a user line, is the harness's rather than the user's turn, or carries
/// no text.
///
/// An `isMeta` line is skipped, and so is a line whose text opens with `<`:
/// the harness writes its own turns as user lines too, and every block it
/// writes opens with a tag. A genuine prompt that opens with `<` is skipped
/// with them.
pub fn prompt_in_user_line(parsed: &Json) -> (prompt: Option<String>)
    ensures
        opt_view(prompt) == prompt_in(*parsed),
{
    match said(parsed) {
        Some(text) => {
            let k = crate::text::trim_start_chars(&text);
            if k >= text.len() || text[k] == '<' {
                return None;
            }
            let whole = crate::text::string_of(&text);
            Some(cut_to_characters(whole.as_str(), PROMPT_CHARACTERS))
        },
        None => None,
    }
}

/// The field a line of each kind carries its name in.
pub open spec fn title_field(kind: TitleKind) -> Seq<char> {
    match kind {
        TitleKind::Custom => "customTitle"@,
        TitleKind::Generated => "aiTitle"@,
        TitleKind::Summary => "summary"@,
    }
}

/// The name a parsed line of this kind gives the session.
pub open spec fn title_in(kind: TitleKind, parsed: Json) -> Option<Seq<char>> {
    text_field(parsed, title_field(kind))
}

/// The name a parsed line of this kind gives the session, or `None` when the
/// line carries no string in the field of its kind.
pub fn title_of(kind: TitleKind, parsed: &Json) -> (title: Option<String>)
    ensures
        opt_view(title) == title_in(kind, *parsed),
{
    let field = match kind {
        TitleKind::Custom => parsed.get("customTitle"),
        TitleKind::Generated => parsed.get("aiTitle"),
        TitleKind::Summary => parsed.get("summary"),
    };
    match field {
        Some(f) => match f.as_str() {
            Some(t) => Some(t.to_owned()),
            None => None,
        },
        None => None,
    }
}

/// The name of a line that may be absent.
pub open spec fn title_in_line(kind: TitleKind, parsed: Option<Json>) -> Option<Seq<char>> {
    match parsed {
        Some(line) => title_in(kind, line),
        None => None,
    }
}

/// The name a session goes by, from the last line of each kind: the title
/// the user set, else the title the harness generated, else the summary of a
/// compaction.
pub open spec fn session_title_in(custom: Option<Json>, generated: Option<Json>, summary: Option<Json>) -> Option<Seq<char>> {
    match title_in_line(TitleKind::Custom, custom) {
        Some(t) => Some(t),
        None => match title_in_line(TitleKind::Generated, generated) {
            Some(t) => Some(t),
            None => title_in_line(TitleKind::Summary, summary),
        },
    }
}

/// The name a line that may be absent gives the session.
fn title_of_line(kind: TitleKind, parsed: Option<&Json>) -> (title: Option<String>)
    ensures
        opt_view(title) == title_in_line(kind, match parsed { Some(p) => Some(*p), None => None }),
{
    match parsed {
        Some(line) => title_of(kind, line),
        None => None,
    }
}

/// The name a session goes by, from the last parsed line of each kind (`None`
/// where there is none, or where it did not parse): the title the user set,
/// else the title the harness generated, else the summary of a compaction.
pub fn session_title_from(custom: Option<&Json>, generated: Option<&Json>, summary: Option<&Json>) -> (title: Option<String>)
    ensures
        opt_view(title) == session_title_in(
            match custom { Some(p) => Some(*p), None => None },
            match generated { Some(p) => Some(*p), None => None },
            match summary { Some(p) => Some(*p), None => None },
        ),
{
    match title_of_line(TitleKind::Custom, custom) {
        Some(t) => Some(t),
        None => match title_of_line(TitleKind::Generated, generated) {
            Some(t) => Some(t),
            None => title_of_line(TitleKind::Summary, summary),
        },
    }
}


/// The part of a window of a file that holds whole lines: all of it when the
/// window starts at the beginning of the file, else what follows its first
/// newline, since a window that starts inside the file starts in the middle
/// of a line.
pub open spec fn whole_lines_of(buffer: Seq<u8>, from_start: bool) -> Seq<u8> {
    if from_start {
        buffer
    } else if exists|k: int| 0 <= k < buffer.len() && buffer[k] == 10 {
        let k = choose|k: int| 0 <= k < buffer.len() && buffer[k] == 10 && forall|j: int| 0 <= j < k ==> buffer[j] != 10;
        buffer.skip(k + 1)
    } else {
        Seq::empty()
    }
}

/// The whole lines of a window read from a file.
pub fn whole_lines(buffer: &[u8], from_start: bool) -> (lines: &[u8])
    ensures
        lines@ == whole_lines_of(buffer@, from_start),
{
    if from_start {
        return buffer;
    }
    match position_of_newline(buffer) {
        Some(newline) => {
            let ghost k = choose|k: int| 0 <= k < buffer@.len() && buffer@[k] == 10 && forall|j: int| 0 <= j < k ==> buffer@[j] != 10;
            assert(buffer@[newline as int] == 10);
            assert(k == newline) by {
                if k < newline {
                    assert(buffer@[k] != 10);
                } else if k > newline {
                    assert(buffer@[newline as int] != 10);
                }
            }
            let n = buffer.len();
            assert(newline < n);
            let rest = vstd::slice::slice_subrange(buffer, newline + 1, n);
            assert(rest@ =~= buffer@.skip(newline + 1));
            rest
        },
        None => vstd::slice::slice_subrange(buffer, 0, 0),
    }
}

/// The usage record of an assistant line: the object at `message.usage` of a
/// line whose `type` is `assistant`.
pub open spec fn usage_of(line: Json) -> Option<Json> {
    if text_field(line, "type"@) != Some("assistant"@) {
        None
    } else {
        match field_of(line, "message"@) {
            Some(m) => match field_of(m, "usage"@) {
                Some(u) => if u is Object {
                    Some(u)
                } else {
                    None
                },
                None => None,
            },
            None => None,
        }
    }
}

/// One counter of a usage record; a counter the harness did not write, or
/// wrote as something other than a whole number, counts as zero.
pub open spec fn counter(usage: Json, name: Seq<char>) -> nat {
    match field_of(usage, name) {
        Some(f) => match crate::events::u64_of(f) {
            Some(n) => n as nat,
            None => 0,
        },
        None => 0,
    }
}

/// The context size an assistant line reports: its input tokens and the
/// cached parts of the prompt, which are in context but not counted as input.
pub open spec fn context_tokens_of(line: Json) -> Option<nat> {
    match usage_of(line) {
        Some(u) => Some(
            counter(u, "input_tokens"@) + counter(u, "cache_read_input_tokens"@) + counter(
                u,
                "cache_creation_input_tokens"@,
            ),
        ),
        None => None,
    }
}

/// Whether the size a line reports, if it reports one, fits in 64 bits.
pub open spec fn size_fits(line: Json) -> bool {
    match context_tokens_of(line) {
        Some(n) => n <= u64::MAX,
        None => true,
    }
}

/// One counter of a usage record.
fn counter_of(usage: &Json, name: &str) -> (n: u64)
    ensures
        n == counter(*usage, name@),
{
    match usage.get(name) {
        Some(f) => match f.as_u64() {
            Some(n) => n,
            None => 0,
        },
        None => 0,
    }
}

/// The usage record of an assistant line.
fn usage_record(line: &Json) -> (usage: Option<&Json>)
    ensures
        match usage {
            Some(u) => usage_of(*line) == Some(*u),
            None => usage_of(*line) is None,
        },
{
    if !text_field_is(line, "type", "assistant") {
        return None;
    }
    let message = match line.get("message") {
        Some(m) => m,
        None => return None,
    };
    match message.get("usage") {
        Some(u) => if u.is_object() {
            Some(u)
        } else {
            None
        },
        None => None,
    }
}

/// Whether the size a parsed transcript line reports, if it reports one,
/// fits in 64 bits.
pub fn size_fits_in(line: &Json) -> (fits: bool)
    ensures
        fits == size_fits(*line),
{
    match usage_record(line) {
        Some(usage) => {
            let a = counter_of(usage, "input_tokens") as u128;
            let b = counter_of(usage, "cache_read_input_tokens") as u128;
            let c = counter_of(usage, "cache_creation_input_tokens") as u128;
            a + b + c <= u64::MAX as u128
        },
        None => true,
    }
}

/// The context size one parsed transcript line reports, or `None` if it is
/// not an assistant line carrying a usage record.
pub fn assistant_context_tokens_in_line(line: &Json) -> (tokens: Option<u64>)
    requires
        size_fits(*line),
    ensures
        match tokens {
            Some(n) => context_tokens_of(*line) == Some(n as nat),
            None => context_tokens_of(*line) is None,
        },
{
    match usage_record(line) {
        Some(usage) => {
            let a = counter_of(usage, "input_tokens");
            let b = counter_of(usage, "cache_read_input_tokens");
            let c = counter_of(usage, "cache_creation_input_tokens");
            Some(a + b + c)
        },
        None => None,
    }
}

/// The size the last line reporting one reports; `None` stands for a line
/// that is not valid JSON.
pub open spec fn last_context_tokens(lines: Seq<Option<Json>>) -> Option<nat>
    decreases lines.len(),
{
    if lines.len() == 0 {
        None
    } else {
        match lines.last() {
            Some(line) => match context_tokens_of(line) {
                Some(n) => Some(n),
                None => last_context_tokens(lines.drop_last()),
            },
            None => last_context_tokens(lines.drop_last()),
        }
    }
}

/// The context size at the last assistant line among parsed transcript
/// lines, in file order; a line that did not parse is `None` and is passed
/// over, which is also what skips a line the writer had not finished.
pub fn last_assistant_context_tokens_in(lines: &Vec<Option<Json>>) -> (tokens: Option<u64>)
    requires
        forall|i: int| 0 <= i < lines@.len() ==> match #[trigger] lines@[i] {
            Some(line) => size_fits(line),
            None => true,
        },
    ensures
        match tokens {
            Some(n) => last_context_tokens(lines@) == Some(n as nat),
            None => last_context_tokens(lines@) is None,
        },
{
    let mut end: usize = lines.len();
    assert(lines@.take(end as int) =~= lines@);
    while end > 0
        invariant
            end <= lines@.len(),
            forall|i: int| 0 <= i < lines@.len() ==> match #[trigger] lines@[i] {
                Some(line) => size_fits(line),
                None => true,
            },
            last_context_tokens(lines@) == last_context_tokens(lines@.take(end as int)),
        decreases end,
    {
        let ghost prefix = lines@.take(end as int);
        assert(prefix.drop_last() =~= lines@.take(end - 1));
        assert(prefix.last() == lines@[end - 1]);
        match &lines[end - 1] {
            Some(line) => {
                assert(size_fits(*line));
                match assistant_context_tokens_in_line(line) {
                    Some(n) => return Some(n),
                    None => {},
                }
            },
            None => {},
        }
        end = end - 1;
    }
    None
}

/// What one subagent's metadata file says about it.
#[derive(Clone, Debug, Default, PartialEq, Eq)]
pub struct SubagentMeta {
    /// The task the spawning agent gave it, cut to [`PROMPT_CHARACTERS`]
    /// characters; `None` when the file says none.
    pub task: Option<String>,
    /// The subagent that spawned it; `None` when the session spawned it.
    pub parent_agent_id: Option<String>,
}

/// One string field of the metadata, or `None` when it is absent, is not a
/// string, or is empty: an empty description says no more than none, and an
/// empty id names no agent.
pub open spec fn meta_text(parsed: Json, name: Seq<char>) -> Option<Seq<char>> {
    match text_field(parsed, name) {
        Some(t) => if t.len() > 0 {
            Some(t)
        } else {
            None
        },
        None => None,
    }
}

/// One string field of the metadata, when it is there and not empty.
fn meta_field(parsed: &Json, name: &str) -> (text: Option<String>)
    ensures
        opt_view(text) == meta_text(*parsed, name@),
{
    match parsed.get(name) {
        Some(f) => match f.as_str() {
            Some(t) => if t.is_empty() {
                None
            } else {
                Some(t.to_owned())
            },
            None => None,
        },
        None => None,
    }
}

/// What a subagent's metadata file says, from the file parsed as JSON, or an
/// empty [`SubagentMeta`] when there is no file to read it from: the
/// `description` the spawning agent gave, cut to [`PROMPT_CHARACTERS`]
/// characters, and the `parentAgentId` a subagent spawned by another
/// subagent carries.
pub fn read(parsed: Option<&Json>) -> (meta: SubagentMeta)
    ensures
        match parsed {
            Some(p) => opt_view(meta.task) == (match meta_text(*p, "description"@) {
                Some(t) => Some(first_chars(t, PROMPT_CHARACTERS as nat)),
                None => None,
            }) && opt_view(meta.parent_agent_id) == meta_text(*p, "parentAgentId"@),
            None => meta.task is None && meta.parent_agent_id is None,
        },
{
    match parsed {
        Some(p) => {
            let task = match meta_field(p, "description") {
                Some(t) => Some(cut_to_characters(t.as_str(), PROMPT_CHARACTERS)),
                None => None,
            };
            SubagentMeta { task, parent_agent_id: meta_field(p, "parentAgentId") }
        },
        None => SubagentMeta { task: None, parent_agent_id: None },
    }
}

} // verus!
