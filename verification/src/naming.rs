//! What the store and the lists call things: commit titles, commit bodies,
//! the names of contexts in a table, the files documents live in.
use vstd::prelude::*;

use crate::context::{ContextKey, ContextState};
use crate::text::{
    chars_of, has_char, is_white, is_whitespace, join, push_all, push_str, string_of, trim_end,
    trim_end_chars, views,
};

verus! {

/// The longest commit title `git log --oneline` shows in full.
pub const MAX_MESSAGE_TITLE: usize = 72;

/// Whether `title` is a usable commit title: one line, not all whitespace, of
/// at most [`MAX_MESSAGE_TITLE`] characters.
pub open spec fn valid_title(title: Seq<char>) -> bool {
    &&& exists|i: int| 0 <= i < title.len() && !is_white(#[trigger] title[i])
    &&& title.len() <= 72
    &&& !has_char(title, '\n')
    &&& !has_char(title, '\r')
}

/// Whether `title` is a usable commit title: one non-empty line within the
/// length `git log --oneline` shows.
pub fn is_valid_message_title(title: &str) -> (valid: bool)
    ensures
        valid == valid_title(title@),
{
    let chars = chars_of(title);
    let mut i: usize = 0;
    let mut seen_text = false;
    while i < chars.len()
        invariant
            i <= chars@.len(),
            seen_text == exists|j: int| 0 <= j < i && !is_white(#[trigger] chars@[j]),
        decreases chars.len() - i,
    {
        if !is_whitespace(chars[i]) {
            seen_text = true;
        }
        i += 1;
    }
    seen_text && chars.len() <= MAX_MESSAGE_TITLE && !crate::text::contains_char(&chars, '\n')
        && !crate::text::contains_char(&chars, '\r')
}

/// The pieces of `s` between runs of whitespace, the way `str::split_whitespace`
/// cuts it, empty pieces included.
pub open spec fn split_white(s: Seq<char>) -> Seq<Seq<char>>
    decreases s.len(),
{
    if s.len() == 0 {
        seq![Seq::<char>::empty()]
    } else {
        let prev = split_white(s.drop_last());
        if is_white(s.last()) {
            prev.push(Seq::<char>::empty())
        } else {
            prev.update(prev.len() - 1, prev.last().push(s.last()))
        }
    }
}

/// The words of `s`: its runs of non-whitespace, in order.
pub open spec fn words(s: Seq<char>) -> Seq<Seq<char>> {
    crate::text::drop_empty(split_white(s))
}

/// `text` with every run of whitespace, newlines included, replaced by one
/// space, and no whitespace at either end.
pub open spec fn collapsed(s: Seq<char>) -> Seq<char> {
    join(words(s), seq![' '])
}

/// `text` with every run of whitespace replaced by one space, and no
/// whitespace at either end.
pub fn collapse_whitespace(text: &str) -> (out: String)
    ensures
        out@ == collapsed(text@),
{
    let s = chars_of(text);
    let mut parts: Vec<Vec<char>> = Vec::new();
    let mut current: Vec<char> = Vec::new();
    let mut i: usize = 0;
    while i < s.len()
        invariant
            s@ == text@,
            i <= s.len(),
            views(parts@).push(current@) == split_white(s@.take(i as int)),
        decreases s.len() - i,
    {
        let c = s[i];
        let ghost before = split_white(s@.take(i as int));
        assert(s@.take(i + 1).drop_last() =~= s@.take(i as int));
        if is_whitespace(c) {
            parts.push(current);
            current = Vec::new();
            assert(views(parts@).push(current@) =~= before.push(Seq::<char>::empty()));
        } else {
            current.push(c);
            assert(views(parts@).push(current@) =~= before.update(
                before.len() - 1,
                before.last().push(c),
            ));
        }
        i += 1;
    }
    assert(s@.take(s.len() as int) =~= s@);
    parts.push(current);
    assert(views(parts@) =~= split_white(s@));
    let kept = crate::text::without_empty(parts);
    let joined = crate::text::join_chars(&kept, kept.len(), ' ');
    assert(views(kept@).take(kept.len() as int) =~= views(kept@));
    string_of(&joined)
}

/// Where the last space of `s` is, or `None` when it holds none.
pub open spec fn last_space(s: Seq<char>) -> Option<int>
    decreases s.len(),
{
    if s.len() == 0 {
        None
    } else if s.last() == ' ' {
        Some(s.len() - 1)
    } else {
        last_space(s.drop_last())
    }
}

/// `text` cut to `limit` characters at a word boundary, with `…` marking what
/// was dropped.
pub open spec fn cut_at_word(text: Seq<char>, limit: nat) -> Seq<char> {
    if text.len() <= limit {
        text
    } else {
        let kept = text.take(limit as int);
        let kept = match last_space(kept) {
            Some(at) => kept.take(at),
            None => kept,
        };
        trim_end(kept).push('\u{2026}')
    }
}

/// `text` cut to `limit` characters at a word boundary, with `…` marking what
/// was dropped. Text of `limit` characters or fewer is returned unchanged and
/// unmarked; a first `limit` characters holding no space is kept whole,
/// because there is no word boundary to cut back to. The cut counts
/// characters, never bytes.
pub fn cut_at_word_boundary(text: &str, limit: usize) -> (out: String)
    ensures
        out@ == cut_at_word(text@, limit as nat),
{
    let s = chars_of(text);
    if s.len() <= limit {
        return text.to_owned();
    }
    let mut p: usize = limit;
    assert(s@.take(limit as int).take(limit as int) =~= s@.take(limit as int));
    while p > 0 && s[p - 1] != ' '
        invariant
            s@ == text@,
            limit < s@.len(),
            p <= limit,
            last_space(s@.take(limit as int)) == last_space(s@.take(limit as int).take(p as int)),
        decreases p,
    {
        let ghost prefix = s@.take(limit as int).take(p as int);
        assert(prefix.last() == s@[p - 1]);
        assert(prefix.drop_last() =~= s@.take(limit as int).take(p - 1));
        p -= 1;
    }
    let end: usize = if p > 0 {
        p - 1
    } else {
        limit
    };
    let ghost kept_spec = match last_space(s@.take(limit as int)) {
        Some(at) => s@.take(limit as int).take(at),
        None => s@.take(limit as int),
    };
    proof {
        if p > 0 {
            assert(s@.take(limit as int).take(p as int).last() == s@[p - 1]);
        } else {
            assert(s@.take(limit as int).take(0) =~= Seq::<char>::empty());
        }
    }
    let mut kept: Vec<char> = Vec::new();
    let mut i: usize = 0;
    while i < end
        invariant
            s@ == text@,
            end <= limit < s@.len(),
            i <= end,
            kept@ == s@.take(i as int),
        decreases end - i,
    {
        kept.push(s[i]);
        assert(s@.take(i + 1) =~= s@.take(i as int).push(s@[i as int]));
        i += 1;
    }
    assert(kept@ =~= kept_spec) by {
        if p > 0 {
            assert(s@.take(limit as int).take((p - 1) as int) =~= s@.take((p - 1) as int));
        }
    }
    let mut out = trim_end_chars(&kept);
    out.push('\u{2026}');
    string_of(&out)
}

/// How much of a task or a first prompt a name keeps.
pub const NAME_CHARACTERS: usize = 80;

/// What to call one context in a list.
pub open spec fn context_name_spec(key: &ContextKey, state: &ContextState) -> Seq<char> {
    if key.agent@ != crate::context::main_agent() && state.task is Some {
        cut_at_word(collapsed(state.task->0@), 80)
    } else if key.agent@ != crate::context::main_agent() && state.agent_type is Some {
        collapsed(state.agent_type->0@)
    } else if state.session_title is Some {
        collapsed(state.session_title->0@)
    } else {
        match state.first_prompt {
            Some(prompt) => cut_at_word(collapsed(prompt@), 80),
            None => Seq::empty(),
        }
    }
}

/// What to call one context in a list.
///
/// For a subagent, the task it was given, else the kind of subagent it is;
/// then the name the session goes by; else the user's first prompt; else the
/// empty string. Whitespace collapses to single spaces and the text is
/// trimmed. A title is used whole; a task and a first prompt are cut to
/// [`NAME_CHARACTERS`] characters at the last word boundary among them.
pub fn context_name(key: &ContextKey, state: &ContextState) -> (name: String)
    ensures
        name@ == context_name_spec(key, state),
{
    if key.is_subagent() {
        if let Some(task) = &state.task {
            let collapsed = collapse_whitespace(task.as_str());
            return cut_at_word_boundary(collapsed.as_str(), NAME_CHARACTERS);
        }
        if let Some(agent_type) = &state.agent_type {
            return collapse_whitespace(agent_type.as_str());
        }
    }
    if let Some(title) = &state.session_title {
        return collapse_whitespace(title.as_str());
    }
    match &state.first_prompt {
        Some(prompt) => {
            let collapsed = collapse_whitespace(prompt.as_str());
            cut_at_word_boundary(collapsed.as_str(), NAME_CHARACTERS)
        },
        None => String::new(),
    }
}

/// A body that ends with a newline, which is what a text file is.
pub fn with_final_newline(body: &str) -> (out: String)
    ensures
        out@ == (if body@.len() == 0 || body@.last() == '\n' {
            body@
        } else {
            body@.push('\n')
        }),
{
    let chars = chars_of(body);
    if chars.len() == 0 || chars[chars.len() - 1] == '\n' {
        body.to_owned()
    } else {
        let mut out = chars;
        out.push('\n');
        string_of(&out)
    }
}

/// The commit's body, which records what was written and by whom.
pub fn commit_body(kind: &str, id: &str, author: &str) -> (body: String)
    ensures
        body@ == kind@ + ": "@ + id@ + "\nauthor: "@ + author@,
{
    let mut out: Vec<char> = Vec::new();
    push_str(&mut out, kind);
    push_str(&mut out, ": ");
    push_str(&mut out, id);
    push_str(&mut out, "\nauthor: ");
    push_str(&mut out, author);
    string_of(&out)
}

/// Which kind of document a history request is about.
#[derive(Clone, Copy, Debug, PartialEq, Eq, Structural)]
pub enum DocumentKind {
    Memory,
    Scope,
}

impl DocumentKind {
    /// The file the document with this id lives in.
    pub fn repository_path(self, id: &str) -> (path: String)
        ensures
            path@ == (match self {
                DocumentKind::Memory => "memories/"@ + id@ + ".md"@,
                DocumentKind::Scope => "scopes/"@ + id@ + ".yaml"@,
            }),
    {
        let mut out: Vec<char> = Vec::new();
        match self {
            DocumentKind::Memory => {
                push_str(&mut out, "memories/");
                push_str(&mut out, id);
                push_str(&mut out, ".md");
            },
            DocumentKind::Scope => {
                push_str(&mut out, "scopes/");
                push_str(&mut out, id);
                push_str(&mut out, ".yaml");
            },
        }
        string_of(&out)
    }

    /// How a message names the document.
    pub fn describe(self, id: &str) -> (text: String)
        ensures
            text@ == (match self {
                DocumentKind::Memory => "the memory `"@ + id@ + "`"@,
                DocumentKind::Scope => "the scope `"@ + id@ + "`"@,
            }),
    {
        let mut out: Vec<char> = Vec::new();
        match self {
            DocumentKind::Memory => push_str(&mut out, "the memory `"),
            DocumentKind::Scope => push_str(&mut out, "the scope `"),
        }
        push_str(&mut out, id);
        push_str(&mut out, "`");
        string_of(&out)
    }
}

} // verus!
