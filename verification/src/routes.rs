//! Reading the paths and queries of the JSON API: which resource a path names
//! and what a query string asks for. Nothing here touches the store.
use vstd::prelude::*;

use crate::catalog::MemoryKind;
use crate::text::{
    chars_of, has_char, join, join_chars, push_str, same_chars, segments, segments_of, string_of,
    views,
};

verus! {

/// A request refused before any operation runs: a path that names nothing,
/// or a body or query that cannot be read.
#[derive(Clone, Debug)]
pub struct Rejection {
    /// The HTTP status it is answered with.
    pub status: u16,
    pub message: String,
}

impl Rejection {
    pub fn bad_request(message: String) -> (r: Rejection)
        ensures
            r.status == 400,
            r.message == message,
    {
        Rejection { status: 400, message }
    }

    pub fn not_found(message: String) -> (r: Rejection)
        ensures
            r.status == 404,
            r.message == message,
    {
        Rejection { status: 404, message }
    }
}

/// `tx`, the prefix every branch name starts with.
pub open spec fn branch_prefix() -> Seq<char> {
    seq!['t', 'x']
}

/// Whether a text names a branch: `tx/` and one non-empty segment with no
/// `/` in it.
pub open spec fn is_branch_name(name: Seq<char>) -> bool {
    name.len() > 3 && name.take(3) == branch_prefix() + seq!['/'] && !has_char(name.skip(3), '/')
}

/// The name of a branch of the store, a git ref under `tx/`.
#[derive(Clone, Debug, PartialEq, Eq)]
pub struct BranchName {
    pub name: String,
}

impl BranchName {
    /// The name as text.
    pub fn as_str(&self) -> (text: &str)
        ensures
            text@ == self.name@,
    {
        self.name.as_str()
    }

    /// The name, if `name` is one.
    pub fn parse(name: &str) -> (parsed: Result<BranchName, String>)
        ensures
            match parsed {
                Ok(branch) => is_branch_name(name@) && branch.name@ == name@,
                Err(message) => !is_branch_name(name@) && message@ == "a branch is `tx/<name>`, not `"@
                    + name@ + "`"@,
            },
    {
        let chars = chars_of(name);
        let ok = if chars.len() > 3 && chars[0] == 't' && chars[1] == 'x' && chars[2] == '/' {
            let mut rest: Vec<char> = Vec::new();
            let mut i: usize = 3;
            while i < chars.len()
                invariant
                    3 <= i <= chars@.len(),
                    rest@ == chars@.subrange(3, i as int),
                decreases chars.len() - i,
            {
                rest.push(chars[i]);
                assert(chars@.subrange(3, i + 1) =~= chars@.subrange(3, i as int).push(chars@[i as int]));
                i += 1;
            }
            assert(rest@ =~= chars@.skip(3));
            assert(chars@.take(3) =~= branch_prefix() + seq!['/']);
            !crate::text::contains_char(&rest, '/')
        } else {
            proof {
                if chars@.len() > 3 && chars@.take(3) == branch_prefix() + seq!['/'] {
                    assert(chars@[0] == chars@.take(3)[0]);
                    assert(chars@[1] == chars@.take(3)[1]);
                    assert(chars@[2] == chars@.take(3)[2]);
                }
            }
            false
        };
        if ok {
            Ok(BranchName { name: name.to_owned() })
        } else {
            let mut out: Vec<char> = Vec::new();
            push_str(&mut out, "a branch is `tx/<name>`, not `");
            push_str(&mut out, name);
            push_str(&mut out, "`");
            Err(string_of(&out))
        }
    }
}

/// The branch and sub-resource a path under `/api/branches/` names: a branch
/// name is two segments, so a third is the sub-resource and a fourth is
/// nothing this API answers.
pub open spec fn branch_route(rest: Seq<char>) -> Option<(Seq<char>, Option<Seq<char>>)> {
    let parts = segments(rest, '/');
    if parts.len() == 2 {
        Some((parts[0] + seq!['/'] + parts[1], None))
    } else if parts.len() == 3 {
        Some((parts[0] + seq!['/'] + parts[1], Some(parts[2])))
    } else {
        None
    }
}

/// The branch and the sub-resource a path under `/api/branches/` names.
pub fn split(rest: &str) -> (parsed: Result<(BranchName, Option<String>), Rejection>)
    ensures
        match parsed {
            Ok((branch, action)) => match branch_route(rest@) {
                Some((name, wanted)) => branch.name@ == name && is_branch_name(name) && match (
                    action,
                    wanted,
                ) {
                    (Some(a), Some(w)) => a@ == w,
                    (None, None) => true,
                    _ => false,
                },
                None => false,
            },
            Err(rejection) => match branch_route(rest@) {
                Some((name, _)) => !is_branch_name(name) && rejection.status == 400,
                None => rejection.status == 404,
            },
        },
{
    let chars = chars_of(rest);
    let parts = segments_of(&chars, '/');
    if parts.len() != 2 && parts.len() != 3 {
        let mut out: Vec<char> = Vec::new();
        push_str(&mut out, "/api/branches/");
        push_str(&mut out, rest);
        push_str(&mut out, " is not a path this API answers");
        return Err(Rejection::not_found(string_of(&out)));
    }
    let mut name: Vec<char> = Vec::new();
    crate::text::push_all(&mut name, &parts[0]);
    name.push('/');
    crate::text::push_all(&mut name, &parts[1]);
    assert(name@ =~= parts@[0]@ + seq!['/'] + parts@[1]@);
    assert(views(parts@)[0] == parts@[0]@ && views(parts@)[1] == parts@[1]@);
    let name_text = string_of(&name);
    let branch = match BranchName::parse(name_text.as_str()) {
        Ok(branch) => branch,
        Err(message) => return Err(Rejection::bad_request(message)),
    };
    if parts.len() == 3 {
        assert(views(parts@)[2] == parts@[2]@);
        Ok((branch, Some(string_of(&parts[2]))))
    } else {
        Ok((branch, None))
    }
}

/// The branch a write names in its query string. An absent or empty value is
/// a write to `main`.
#[derive(Clone, Debug)]
pub struct BranchQuery {
    pub branch: Option<String>,
}

impl BranchQuery {
    /// The branch this write goes to, or why the name names no branch.
    pub fn branch(&self) -> (target: Result<Option<BranchName>, Rejection>)
        ensures
            match self.branch {
                None => target == Ok::<Option<BranchName>, Rejection>(None),
                Some(name) => if name@.len() == 0 {
                    target == Ok::<Option<BranchName>, Rejection>(None)
                } else {
                    match target {
                        Ok(Some(branch)) => is_branch_name(name@) && branch.name@ == name@,
                        Ok(None) => false,
                        Err(rejection) => !is_branch_name(name@) && rejection.status == 400
                            && rejection.message@ == "a branch is `tx/<name>`, not `"@ + name@ + "`"@,
                    }
                },
            },
    {
        match &self.branch {
            None => Ok(None),
            Some(name) => {
                if name.as_str().is_empty() {
                    return Ok(None);
                }
                match BranchName::parse(name.as_str()) {
                    Ok(branch) => Ok(Some(branch)),
                    Err(message) => Err(Rejection::bad_request(message)),
                }
            },
        }
    }
}

/// What the path after `/api/contexts/` names.
#[derive(Clone, Debug, PartialEq, Eq)]
pub enum ContextRoute {
    /// The text one context would be given, by the context's key.
    Prompt(String),
    /// Nothing this API answers: no key, or no action after it.
    Unknown,
}

/// The key a path ending in `/<action>` names, when there are at least
/// `least` segments: every segment before the last, joined again.
pub open spec fn key_before(rest: Seq<char>, action: Seq<char>, least: int) -> Option<Seq<char>> {
    let parts = segments(rest, '/');
    if parts.len() >= least && parts.len() >= 1 && parts.last() == action {
        Some(join(parts.drop_last(), seq!['/']))
    } else {
        None
    }
}

/// The key before a trailing `action` segment, when there are at least
/// `least` segments.
fn key_before_action(rest: &str, action: &str, least: usize) -> (key: Option<String>)
    requires
        least >= 1,
    ensures
        match key {
            Some(k) => key_before(rest@, action@, least as int) == Some(k@),
            None => key_before(rest@, action@, least as int) is None,
        },
{
    let chars = chars_of(rest);
    let parts = segments_of(&chars, '/');
    let wanted = chars_of(action);
    let n = parts.len();
    if n >= least && same_chars(&parts[n - 1], &wanted) {
        assert(views(parts@).last() == parts@[n - 1]@);
        let joined = join_chars(&parts, n - 1, '/');
        assert(views(parts@).take(n - 1) =~= views(parts@).drop_last());
        Some(string_of(&joined))
    } else {
        proof {
            if n >= least {
                assert(views(parts@).last() == parts@[n - 1]@);
            }
        }
        None
    }
}

impl ContextRoute {
    pub fn of(rest: &str) -> (route: ContextRoute)
        ensures
            match key_before(rest@, "prompt"@, 2) {
                Some(key) => (route matches ContextRoute::Prompt(k) && k@ == key),
                None => route == ContextRoute::Unknown,
            },
    {
        match key_before_action(rest, "prompt", 2) {
            Some(key) => ContextRoute::Prompt(key),
            None => ContextRoute::Unknown,
        }
    }
}

/// The context key in a path under `/api/stats/session/`, whose last segment
/// selects the series.
pub fn series_key(rest: &str) -> (key: Option<String>)
    ensures
        match key {
            Some(k) => key_before(rest@, "series"@, 3) == Some(k@),
            None => key_before(rest@, "series"@, 3) is None,
        },
{
    key_before_action(rest, "series", 3)
}

/// What the path after `/api/memories/` names.
#[derive(Clone, Debug, PartialEq, Eq)]
pub enum MemoryRoute {
    Document(String),
    History(String),
    HistoryEntry { id: String, oid: String },
    /// Nothing this API answers: no id at all.
    Unknown,
}

/// `history`.
pub open spec fn history_word() -> Seq<char> {
    seq!['h', 'i', 's', 't', 'o', 'r', 'y']
}

/// What a path under `/api/memories/` names, as texts: the kind of resource,
/// the memory id and, for one entry of its history, the commit.
pub open spec fn memory_route(rest: Seq<char>) -> (int, Seq<char>, Seq<char>) {
    let parts = segments(rest, '/');
    let n = parts.len();
    if n == 0 {
        (0, Seq::empty(), Seq::empty())
    } else if n >= 3 && parts[n - 2] == history_word() {
        (3, join(parts.take(n - 2), seq!['/']), parts[n - 1])
    } else if n >= 2 && parts[n - 1] == history_word() {
        (2, join(parts.take(n - 1), seq!['/']), Seq::empty())
    } else {
        (1, join(parts, seq!['/']), Seq::empty())
    }
}

impl MemoryRoute {
    pub fn of(rest: &str) -> (route: MemoryRoute)
        ensures
            match route {
                MemoryRoute::Unknown => memory_route(rest@).0 == 0,
                MemoryRoute::Document(id) => memory_route(rest@).0 == 1 && memory_route(rest@).1 == id@,
                MemoryRoute::History(id) => memory_route(rest@).0 == 2 && memory_route(rest@).1 == id@,
                MemoryRoute::HistoryEntry { id, oid } => memory_route(rest@).0 == 3
                    && memory_route(rest@).1 == id@ && memory_route(rest@).2 == oid@,
            },
    {
        let chars = chars_of(rest);
        let parts = segments_of(&chars, '/');
        let n = parts.len();
        proof {
            reveal_strlit("history");
        }
        let history = chars_of("history");
        assert(history@ =~= history_word());
        if n == 0 {
            return MemoryRoute::Unknown;
        }
        if n >= 3 && same_chars(&parts[n - 2], &history) {
            assert(views(parts@)[n - 2] == parts@[n - 2]@);
            assert(views(parts@)[n - 1] == parts@[n - 1]@);
            let id = join_chars(&parts, n - 2, '/');
            return MemoryRoute::HistoryEntry { id: string_of(&id), oid: string_of(&parts[n - 1]) };
        }
        proof {
            if n >= 3 {
                assert(views(parts@)[n - 2] == parts@[n - 2]@);
            }
        }
        if n >= 2 && same_chars(&parts[n - 1], &history) {
            assert(views(parts@)[n - 1] == parts@[n - 1]@);
            let id = join_chars(&parts, n - 1, '/');
            return MemoryRoute::History(string_of(&id));
        }
        proof {
            if n >= 2 {
                assert(views(parts@)[n - 1] == parts@[n - 1]@);
            }
        }
        let id = join_chars(&parts, n, '/');
        assert(views(parts@).take(n as int) =~= views(parts@));
        MemoryRoute::Document(string_of(&id))
    }
}

/// Which text of a context is asked for.
#[derive(Clone, Copy, Debug, PartialEq, Eq, Structural)]
pub enum PromptMode {
    /// What the context's next hook event would deliver.
    Due,
    /// Everything the context's active scopes hold.
    All,
}

/// Which text of a context a query asks for.
#[derive(Clone, Debug)]
pub struct PromptQuery {
    pub mode: Option<String>,
}

/// The mode a query's text asks for, or `None` when it names none.
pub open spec fn prompt_mode_of(text: Option<String>) -> Option<PromptMode> {
    match text {
        None => Some(PromptMode::Due),
        Some(s) => { let t = s@; if t.len() == 0 || t == "due"@ {
            Some(PromptMode::Due)
        } else if t == "all"@ {
            Some(PromptMode::All)
        } else {
            None
        } },
    }
}

impl PromptQuery {
    /// An absent mode is what the next event would deliver.
    pub fn mode(&self) -> (asked: Result<PromptMode, Rejection>)
        ensures
            match asked {
                Ok(m) => prompt_mode_of(self.mode) == Some(m),
                Err(r) => prompt_mode_of(self.mode) is None && r.status == 400
                    && (self.mode matches Some(t) && r.message@ == "mode must be `due` or `all`, not `"@
                    + t@ + "`"@),
            },
    {
        match &self.mode {
            None => Ok(PromptMode::Due),
            Some(text) => {
                let chars = chars_of(text.as_str());
                let due = chars_of("due");
                let all = chars_of("all");
                if chars.len() == 0 || same_chars(&chars, &due) {
                    Ok(PromptMode::Due)
                } else if same_chars(&chars, &all) {
                    Ok(PromptMode::All)
                } else {
                    let mut out: Vec<char> = Vec::new();
                    push_str(&mut out, "mode must be `due` or `all`, not `");
                    push_str(&mut out, text.as_str());
                    push_str(&mut out, "`");
                    Err(Rejection::bad_request(string_of(&out)))
                }
            },
        }
    }
}

/// Which memories an index request wants.
#[derive(Clone, Debug)]
pub struct MemoryFilter {
    pub scope: Option<String>,
    pub kind: Option<MemoryKind>,
}

/// The index filter, as the query string carries it.
#[derive(Clone, Debug)]
pub struct IndexQuery {
    pub scope: Option<String>,
    pub kind: Option<String>,
}

impl IndexQuery {
    /// The filter, checked here so a mistyped filter is a `400` naming what
    /// was expected rather than a silently empty index.
    pub fn filter(self) -> (filter: Result<MemoryFilter, Rejection>)
        ensures
            match filter {
                Ok(f) => {
                    &&& match self.kind {
                        None => f.kind is None,
                        Some(k) => if k@.len() == 0 {
                            f.kind is None
                        } else if k@ == "critical"@ {
                            f.kind == Some(MemoryKind::Critical)
                        } else {
                            k@ == "knowledge"@ && f.kind == Some(MemoryKind::Knowledge)
                        },
                    }
                    &&& match self.scope {
                        None => f.scope is None,
                        Some(s) => if s@.len() == 0 {
                            f.scope is None
                        } else {
                            f.scope == Some(s)
                        },
                    }
                },
                Err(r) => r.status == 400 && (self.kind matches Some(k) && k@.len() > 0 && k@
                    != "critical"@ && k@ != "knowledge"@ && r.message@
                    == "kind must be `critical` or `knowledge`, not `"@ + k@ + "`"@),
            },
    {
        let kind = match &self.kind {
            None => None,
            Some(text) => {
                let chars = chars_of(text.as_str());
                if chars.len() == 0 {
                    None
                } else if same_chars(&chars, &chars_of("critical")) {
                    Some(MemoryKind::Critical)
                } else if same_chars(&chars, &chars_of("knowledge")) {
                    Some(MemoryKind::Knowledge)
                } else {
                    let mut out: Vec<char> = Vec::new();
                    push_str(&mut out, "kind must be `critical` or `knowledge`, not `");
                    push_str(&mut out, text.as_str());
                    push_str(&mut out, "`");
                    return Err(Rejection::bad_request(string_of(&out)));
                }
            },
        };
        let scope = match self.scope {
            None => None,
            Some(s) => if s.as_str().is_empty() {
                None
            } else {
                Some(s)
            },
        };
        Ok(MemoryFilter { scope, kind })
    }
}

/// How many commits a history page holds when the query does not say.
pub const DEFAULT_HISTORY_LIMIT: usize = 50;

/// The value of a run of decimal digits.
pub open spec fn decimal_value(digits: Seq<char>) -> nat
    decreases digits.len(),
{
    if digits.len() == 0 {
        0
    } else {
        decimal_value(digits.drop_last()) * 10 + ((digits.last() as int - '0' as int) as nat)
    }
}

/// Whether every character is a decimal digit.
pub open spec fn all_digits(s: Seq<char>) -> bool {
    forall|i: int| 0 <= i < s.len() ==> '0' <= #[trigger] s[i] <= '9'
}

/// What `usize::from_str` reads a text as: an optional `+` and at least one
/// digit, of a value that fits.
pub open spec fn parse_usize_spec(s: Seq<char>) -> Option<nat> {
    let digits = if s.len() > 0 && s[0] == '+' {
        s.skip(1)
    } else {
        s
    };
    if digits.len() > 0 && all_digits(digits) && decimal_value(digits) <= usize::MAX {
        Some(decimal_value(digits))
    } else {
        None
    }
}

/// A whole number written in decimal, as `usize::from_str` reads it.
pub fn parse_usize(text: &str) -> (value: Option<usize>)
    ensures
        match value {
            Some(v) => parse_usize_spec(text@) == Some(v as nat),
            None => parse_usize_spec(text@) is None,
        },
{
    let chars = chars_of(text);
    let start: usize = if chars.len() > 0 && chars[0] == '+' {
        1
    } else {
        0
    };
    let ghost digits = if chars@.len() > 0 && chars@[0] == '+' {
        chars@.skip(1)
    } else {
        chars@
    };
    assert(digits =~= chars@.skip(start as int));
    if start >= chars.len() {
        return None;
    }
    let mut acc: usize = 0;
    let mut i: usize = start;
    while i < chars.len()
        invariant
            chars@ == text@,
            digits == (if chars@.len() > 0 && chars@[0] == '+' {
                chars@.skip(1)
            } else {
                chars@
            }),
            start <= i <= chars@.len(),
            digits == chars@.skip(start as int),
            all_digits(chars@.subrange(start as int, i as int)),
            acc == decimal_value(chars@.subrange(start as int, i as int)),
        decreases chars.len() - i,
    {
        let c = chars[i];
        assert(chars@.subrange(start as int, i + 1).drop_last() =~= chars@.subrange(start as int, i as int));
        if c < '0' || c > '9' {
            assert(!all_digits(digits)) by {
                assert(digits[i - start] == c);
            }
            assert(chars@ == text@);

            return None;
        }
        let d = (c as u32 - '0' as u32) as usize;
        assert(d as int == c as int - '0' as int);
        if acc > (usize::MAX - d) / 10 {
            proof {
                if all_digits(digits) {
                    lemma_decimal_prefix_bound(digits, (i - start) as int + 1);
                    assert(digits.take((i - start) as int + 1) =~= chars@.subrange(start as int, i + 1));
                }
            }
            return None;
        }
        acc = acc * 10 + d;
        i += 1;
    }
    assert(chars@.subrange(start as int, chars.len() as int) =~= digits);
    Some(acc)
}

/// A value of digits is at least the value of any of its prefixes.
proof fn lemma_decimal_prefix_bound(digits: Seq<char>, k: int)
    requires
        0 <= k <= digits.len(),
        all_digits(digits),
    ensures
        decimal_value(digits.take(k)) <= decimal_value(digits),
    decreases digits.len() - k,
{
    if k < digits.len() {
        lemma_decimal_prefix_bound(digits, k + 1);
        assert(digits.take(k + 1).drop_last() =~= digits.take(k));
        assert(digits.take(k + 1).last() == digits[k]);
        assert('0' <= digits[k] <= '9');
    } else {
        assert(digits.take(k) =~= digits);
    }
}

/// Which page of the history a query asks for.
#[derive(Clone, Debug)]
pub struct PageQuery {
    pub before: Option<String>,
    pub limit: Option<String>,
}

impl PageQuery {
    /// The commit the page starts after, and how many commits it holds.
    pub fn page(self) -> (page: Result<(Option<String>, usize), Rejection>)
        ensures
            match page {
                Ok((before, limit)) => {
                    &&& match self.limit {
                        None => limit == DEFAULT_HISTORY_LIMIT,
                        Some(t) => if t@.len() == 0 {
                            limit == DEFAULT_HISTORY_LIMIT
                        } else {
                            parse_usize_spec(t@) == Some(limit as nat)
                        },
                    }
                    &&& match self.before {
                        None => before is None,
                        Some(b) => if b@.len() == 0 {
                            before is None
                        } else {
                            before == Some(b)
                        },
                    }
                },
                Err(r) => r.status == 400 && (self.limit matches Some(t) && t@.len() > 0
                    && parse_usize_spec(t@) is None && r.message@
                    == "limit must be a whole number, not `"@ + t@ + "`"@),
            },
    {
        let limit = match &self.limit {
            None => DEFAULT_HISTORY_LIMIT,
            Some(text) => if text.as_str().is_empty() {
                DEFAULT_HISTORY_LIMIT
            } else {
                match parse_usize(text.as_str()) {
                    Some(v) => v,
                    None => {
                        let mut out: Vec<char> = Vec::new();
                        push_str(&mut out, "limit must be a whole number, not `");
                        push_str(&mut out, text.as_str());
                        push_str(&mut out, "`");
                        return Err(Rejection::bad_request(string_of(&out)));
                    },
                }
            },
        };
        let before = match self.before {
            None => None,
            Some(b) => if b.as_str().is_empty() {
                None
            } else {
                Some(b)
            },
        };
        Ok((before, limit))
    }
}

} // verus!
