//! What one hook event means for a context: which context it belongs to,
//! which texts its triggers are matched against, and what its answer may do.
use vstd::prelude::*;

use crate::catalog::{holds, holds_string, Settings};
use crate::context::{key_text, main_agent, ContextKey, KeyView};
use crate::render::answer_marker;
use crate::text::{chars_of, is_white, is_whitespace, lines, lines_of, same_chars, utf8_len, utf8_units, views};

verus! {

/// A JSON value, as a hook event carries a tool's input or result.
#[derive(Debug)]
pub enum Json {
    Null,
    Bool(bool),
    /// A number: its value when it is a whole number that fits in 64 bits
    /// unsigned, else `None`.
    Number(Option<u64>),
    Text(String),
    Array(Vec<Json>),
    /// The fields in the order the document gives them.
    Object(Vec<(String, Json)>),
}

/// The value of the first field named `name` among `fields`.
pub open spec fn first_field(fields: Seq<(String, Json)>, name: Seq<char>) -> Option<Json>
    decreases fields.len(),
{
    if fields.len() == 0 {
        None
    } else if fields[0].0@ == name {
        Some(fields[0].1)
    } else {
        first_field(fields.skip(1), name)
    }
}

/// The field `name` of a JSON object, or `None` when `v` is no object or has
/// no such field.
pub open spec fn field_of(v: Json, name: Seq<char>) -> Option<Json> {
    match v {
        Json::Object(fields) => first_field(fields@, name),
        _ => None,
    }
}

/// The text of a JSON string, or `None` when `v` is not a string.
pub open spec fn text_of(v: Json) -> Option<Seq<char>> {
    match v {
        Json::Text(s) => Some(s@),
        _ => None,
    }
}

/// The value of a JSON boolean.
pub open spec fn bool_of(v: Json) -> Option<bool> {
    match v {
        Json::Bool(b) => Some(b),
        _ => None,
    }
}

/// The value of a JSON number that is a whole number fitting 64 bits unsigned.
pub open spec fn u64_of(v: Json) -> Option<u64> {
    match v {
        Json::Number(n) => n,
        _ => None,
    }
}

/// The text of the string field `name` of `v`, when there is one.
pub open spec fn text_field(v: Json, name: Seq<char>) -> Option<Seq<char>> {
    match field_of(v, name) {
        Some(f) => text_of(f),
        None => None,
    }
}

impl Json {
    /// The field `name` of this value when it is an object that has one.
    pub fn get(&self, name: &str) -> (field: Option<&Json>)
        ensures
            match field {
                Some(f) => field_of(*self, name@) == Some(*f),
                None => field_of(*self, name@) is None,
            },
    {
        match self {
            Json::Object(fields) => {
                let key = name.to_owned();
                let mut i: usize = 0;
                assert(fields@.skip(0) =~= fields@);
                while i < fields.len()
                    invariant
                        i <= fields@.len(),
                        *self == Json::Object(*fields),
                        key@ == name@,
                        first_field(fields@, name@) == first_field(fields@.skip(i as int), name@),
                    decreases fields.len() - i,
                {
                    assert(fields@.skip(i as int)[0] == fields@[i as int]);
                    if fields[i].0 == key {
                        return Some(&fields[i].1);
                    }
                    assert(fields@.skip(i as int).skip(1) =~= fields@.skip(i + 1));
                    i += 1;
                }
                None
            },
            _ => None,
        }
    }

    /// The value of this boolean.
    pub fn as_bool(&self) -> (b: Option<bool>)
        ensures
            b == bool_of(*self),
    {
        match self {
            Json::Bool(b) => Some(*b),
            _ => None,
        }
    }

    /// The value of this number when it is a whole number that fits in 64
    /// bits unsigned.
    pub fn as_u64(&self) -> (n: Option<u64>)
        ensures
            n == u64_of(*self),
    {
        match self {
            Json::Number(n) => *n,
            _ => None,
        }
    }

    /// Whether this value is an object.
    pub fn is_object(&self) -> (object: bool)
        ensures
            object == (*self is Object),
    {
        match self {
            Json::Object(_) => true,
            _ => false,
        }
    }

    /// The text of this value when it is a string.
    pub fn as_str(&self) -> (text: Option<&str>)
        ensures
            opt_str(text) == text_of(*self),
    {
        match self {
            Json::Text(s) => Some(s.as_str()),
            _ => None,
        }
    }
}

/// Every string in a JSON value, in document order. Object keys are left out.
pub open spec fn leaves(v: Json) -> Seq<Seq<char>>
    decreases v,
{
    match v {
        Json::Text(s) => seq![s@],
        Json::Array(items) => leaves_of_items(items@),
        Json::Object(fields) => leaves_of_fields(fields@),
        _ => Seq::empty(),
    }
}

/// Every string in a list of JSON values, in order.
pub open spec fn leaves_of_items(items: Seq<Json>) -> Seq<Seq<char>>
    decreases items,
{
    if items.len() == 0 {
        Seq::empty()
    } else {
        leaves_of_items(items.drop_last()) + leaves(items.last())
    }
}

/// Every string in the values of a list of fields, in order.
pub open spec fn leaves_of_fields(fields: Seq<(String, Json)>) -> Seq<Seq<char>>
    decreases fields,
{
    if fields.len() == 0 {
        Seq::empty()
    } else {
        leaves_of_fields(fields.drop_last()) + leaves(fields.last().1)
    }
}

/// The longest start of `s` whose UTF-8 length is at most `room`.
pub open spec fn fit_prefix(s: Seq<char>, room: nat) -> Seq<char>
    decreases s.len(),
{
    if s.len() == 0 || utf8_units(s[0]) > room {
        Seq::empty()
    } else {
        seq![s[0]] + fit_prefix(s.skip(1), (room - utf8_units(s[0])) as nat)
    }
}

/// `text` with one more string added under the byte cap: nothing once the
/// text has reached the cap, else a newline after any earlier text and as
/// much of the string, on a character boundary, as still fits.
pub open spec fn leaf_step(text: Seq<char>, leaf: Seq<char>, cap: nat) -> Seq<char> {
    if utf8_len(text) >= cap {
        text
    } else {
        let t = if text.len() > 0 {
            text.push('\n')
        } else {
            text
        };
        t + fit_prefix(leaf, (cap - utf8_len(t)) as nat)
    }
}

/// `text` with each of `leaves` added in turn.
pub open spec fn fill(text: Seq<char>, leaves: Seq<Seq<char>>, cap: nat) -> Seq<char>
    decreases leaves.len(),
{
    if leaves.len() == 0 {
        text
    } else {
        leaf_step(fill(text, leaves.drop_last(), cap), leaves.last(), cap)
    }
}

proof fn lemma_fill_append(text: Seq<char>, a: Seq<Seq<char>>, b: Seq<Seq<char>>, cap: nat)
    ensures
        fill(text, a + b, cap) == fill(fill(text, a, cap), b, cap),
    decreases b.len(),
{
    if b.len() == 0 {
        assert(a + b =~= a);
    } else {
        lemma_fill_append(text, a, b.drop_last(), cap);
        assert((a + b).drop_last() =~= a + b.drop_last());
    }
}

proof fn lemma_fill_full(text: Seq<char>, ls: Seq<Seq<char>>, cap: nat)
    requires
        utf8_len(text) >= cap,
    ensures
        fill(text, ls, cap) == text,
    decreases ls.len(),
{
    if ls.len() > 0 {
        lemma_fill_full(text, ls.drop_last(), cap);
    }
}

/// As much of `leaf` as fits in `room` bytes, cut on a character boundary.
fn fitting_prefix(leaf: &[char], room: usize) -> (out: Vec<char>)
    ensures
        out@ == fit_prefix(leaf@, room as nat),
        utf8_len(out@) <= room,
{
    let mut out: Vec<char> = Vec::new();
    let mut left: usize = room;
    let mut i: usize = 0;
    assert(leaf@.skip(0) =~= leaf@);
    while i < leaf.len()
        invariant
            i <= leaf@.len(),
            left <= room,
            out@ + fit_prefix(leaf@.skip(i as int), left as nat) == fit_prefix(leaf@, room as nat),
            utf8_len(out@) + left == room,
        decreases leaf.len() - i,
    {
        let c = leaf[i];
        let u = c as u32;
        let units: usize = if u < 0x80 {
            1
        } else if u < 0x800 {
            2
        } else if u < 0x10000 {
            3
        } else {
            4
        };
        assert(leaf@.skip(i as int)[0] == c);
        assert(units == utf8_units(c));
        if units > left {
            assert(fit_prefix(leaf@.skip(i as int), left as nat) =~= Seq::<char>::empty());
            assert(out@ =~= out@ + Seq::<char>::empty());
            return out;
        }
        assert(leaf@.skip(i as int).skip(1) =~= leaf@.skip(i + 1));
        let ghost before = out@;
        out.push(c);
        proof {
            crate::text::lemma_utf8_len_add(before, seq![c]);
            crate::text::lemma_utf8_single(c);
            assert(before + seq![c] =~= before.push(c));
            assert(before + (seq![c] + fit_prefix(leaf@.skip(i + 1), (left - units) as nat)) =~= before.push(c) + fit_prefix(leaf@.skip(i + 1), (left - units) as nat));
        }
        left = left - units;
        i += 1;
    }
    assert(fit_prefix(leaf@.skip(i as int), left as nat) =~= Seq::<char>::empty());
    assert(out@ =~= out@ + Seq::<char>::empty());
    out
}

/// Add one string to the text under the cap.
fn add_leaf(out: &mut Vec<char>, used: &mut usize, leaf: &String, cap: usize)
    requires
        *old(used) == utf8_len(old(out)@),
        *old(used) <= cap,
    ensures
        final(out)@ == leaf_step(old(out)@, leaf@, cap as nat),
        *final(used) == utf8_len(final(out)@),
        *final(used) <= cap,
{
    if *used >= cap {
        return;
    }
    if out.len() > 0 {
        let ghost before = out@;
        out.push('\n');
        *used = *used + 1;
        proof {
            crate::text::lemma_utf8_len_add(before, seq!['\n']);
            crate::text::lemma_utf8_single('\n');
            assert(before + seq!['\n'] =~= before.push('\n'));
        }
    }
    let room = cap - *used;
    let piece = fitting_prefix(&chars_of(leaf.as_str()), room);
    let ghost before = out@;
    crate::text::push_all(out, &piece);
    proof {
        crate::text::lemma_utf8_len_add(before, piece@);
    }
    *used = *used + utf8_piece(&piece, room);
}

/// The UTF-8 length of a piece known to fit in `room`.
fn utf8_piece(piece: &Vec<char>, room: usize) -> (n: usize)
    requires
        utf8_len(piece@) <= room,
    ensures
        n == utf8_len(piece@),
{
    let wide = crate::text::utf8_count_wide(piece);
    wide as usize
}

/// Add every string of `value`, in document order, under the cap.
fn collect_strings(value: &Json, cap: usize, out: &mut Vec<char>, used: &mut usize)
    requires
        *old(used) == utf8_len(old(out)@),
        *old(used) <= cap,
    ensures
        final(out)@ == fill(old(out)@, leaves(*value), cap as nat),
        *final(used) == utf8_len(final(out)@),
        *final(used) <= cap,
    decreases value,
{
    if *used >= cap {
        proof {
            lemma_fill_full(out@, leaves(*value), cap as nat);
        }
        return;
    }
    match value {
        Json::Text(leaf) => {
            let ghost start = out@;
            add_leaf(out, used, leaf, cap);
            assert(seq![leaf@].drop_last() =~= Seq::<Seq<char>>::empty());
            assert(fill(start, seq![leaf@].drop_last(), cap as nat) == start);
            assert(seq![leaf@].last() == leaf@);
        },
        Json::Array(items) => {
            let ghost start = out@;
            let mut i: usize = 0;
            assert(items@.take(0) =~= Seq::<Json>::empty());
            while i < items.len()
                invariant
                    *value == Json::Array(*items),
                    i <= items@.len(),
                    out@ == fill(start, leaves_of_items(items@.take(i as int)), cap as nat),
                    *used == utf8_len(out@),
                    *used <= cap,
                decreases items.len() - i,
            {
                assert(items@.take(i + 1).drop_last() =~= items@.take(i as int));
                assert(items@.take(i + 1).last() == items@[i as int]);
                proof {
                    lemma_fill_append(start, leaves_of_items(items@.take(i as int)), leaves(items@[i as int]), cap as nat);
                }
                assert(decreases_to!(*value => value->Array_0));
                assert(decreases_to!(*items => items[i as int]));
                assert(decreases_to!(*value => items[i as int]));
                collect_strings(&items[i], cap, out, used);
                i += 1;
            }
            assert(items@.take(items.len() as int) =~= items@);
        },
        Json::Object(fields) => {
            let ghost start = out@;
            let mut i: usize = 0;
            assert(fields@.take(0) =~= Seq::<(String, Json)>::empty());
            while i < fields.len()
                invariant
                    *value == Json::Object(*fields),
                    i <= fields@.len(),
                    out@ == fill(start, leaves_of_fields(fields@.take(i as int)), cap as nat),
                    *used == utf8_len(out@),
                    *used <= cap,
                decreases fields.len() - i,
            {
                assert(fields@.take(i + 1).drop_last() =~= fields@.take(i as int));
                assert(fields@.take(i + 1).last() == fields@[i as int]);
                proof {
                    lemma_fill_append(start, leaves_of_fields(fields@.take(i as int)), leaves(fields@[i as int].1), cap as nat);
                }
                assert(decreases_to!(*value => value->Object_0));
                assert(decreases_to!(*fields => fields[i as int]));
                assert(decreases_to!(fields[i as int] => fields[i as int].1));
                assert(decreases_to!(*value => fields[i as int].1));
                collect_strings(&fields[i].1, cap, out, used);
                i += 1;
            }
            assert(fields@.take(fields.len() as int) =~= fields@);
        },
        _ => {},
    }
}

/// Every string in a JSON value, in document order, joined by newlines and
/// cut to `cap` bytes on a character boundary.
///
/// Object keys are left out: a trigger matches what a tool was called with
/// or what it returned, not the names of the fields carrying it.
pub fn string_leaves(value: &Json, cap: usize) -> (text: String)
    ensures
        text@ == fill(Seq::empty(), leaves(*value), cap as nat),
        utf8_len(text@) <= cap,
{
    let mut out: Vec<char> = Vec::new();
    let mut used: usize = 0;
    collect_strings(value, cap, &mut out, &mut used);
    crate::text::string_of(&out)
}


/// Which text of an event a trigger is matched against.
#[derive(Clone, Copy, Debug, PartialEq, Eq, Structural)]
pub enum TriggerField {
    UserMessage,
    AssistantMessage,
    ToolName,
    ToolInput,
    ToolResult,
    ShellDirectory,
    SessionDirectory,
}

/// The fields every hook event carries.
#[derive(Debug)]
pub struct HookCommon {
    pub session_id: String,
    /// The subagent the event comes from, when it comes from one.
    pub agent_id: Option<String>,
    /// The shell's working directory when the event fired.
    pub cwd: Option<String>,
}

/// One hook event, as the client forwards it.
#[derive(Debug)]
pub enum HookEvent {
    SessionStart { common: HookCommon },
    UserPromptSubmit { common: HookCommon, prompt: String },
    PreToolUse { common: HookCommon, tool_name: String, tool_input: Json },
    PostToolUse { common: HookCommon, tool_name: String, tool_output: Json },
    Stop { common: HookCommon, last_assistant_message: Option<String> },
    /// The shell moved to `cwd`.
    CwdChanged { common: HookCommon, cwd: String },
    PostCompact { common: HookCommon },
    /// A subagent started; `agent_id` is the child's.
    SubagentStart { common: HookCommon, agent_id: String, agent_type: Option<String> },
    /// An event name this server does not know.
    Unknown,
}

/// The name an event arrives under.
pub open spec fn event_name_of(event: HookEvent) -> Seq<char> {
    match event {
        HookEvent::SessionStart { .. } => "SessionStart"@,
        HookEvent::UserPromptSubmit { .. } => "UserPromptSubmit"@,
        HookEvent::PreToolUse { .. } => "PreToolUse"@,
        HookEvent::PostToolUse { .. } => "PostToolUse"@,
        HookEvent::Stop { .. } => "Stop"@,
        HookEvent::CwdChanged { .. } => "CwdChanged"@,
        HookEvent::PostCompact { .. } => "PostCompact"@,
        HookEvent::SubagentStart { .. } => "SubagentStart"@,
        HookEvent::Unknown => "Unknown"@,
    }
}

impl HookEvent {
    /// The name this event arrives under.
    pub fn event_name(&self) -> (name: &'static str)
        ensures
            name@ == event_name_of(*self),
    {
        match self {
            HookEvent::SessionStart { .. } => "SessionStart",
            HookEvent::UserPromptSubmit { .. } => "UserPromptSubmit",
            HookEvent::PreToolUse { .. } => "PreToolUse",
            HookEvent::PostToolUse { .. } => "PostToolUse",
            HookEvent::Stop { .. } => "Stop",
            HookEvent::CwdChanged { .. } => "CwdChanged",
            HookEvent::PostCompact { .. } => "PostCompact",
            HookEvent::SubagentStart { .. } => "SubagentStart",
            HookEvent::Unknown => "Unknown",
        }
    }
}

/// The view of an optional string.
pub open spec fn opt_view(o: Option<String>) -> Option<Seq<char>> {
    match o {
        Some(s) => Some(s@),
        None => None,
    }
}

/// The view of an optional borrowed string.
pub open spec fn opt_str(o: Option<&str>) -> Option<Seq<char>> {
    match o {
        Some(s) => Some(s@),
        None => None,
    }
}

/// An optional text, with an empty one taken as none.
pub open spec fn present_text(o: Option<Seq<char>>) -> Option<Seq<char>> {
    match o {
        Some(t) => if t.len() > 0 {
            Some(t)
        } else {
            None
        },
        None => None,
    }
}

/// The entry one text adds to a plan: nothing when it is absent or empty.
pub open spec fn text_entry(field: TriggerField, text: Option<Seq<char>>) -> Seq<(TriggerField, Seq<char>)> {
    match present_text(text) {
        Some(t) => seq![(field, t)],
        None => Seq::empty(),
    }
}

/// The strings of a JSON value as one text under a byte cap.
pub open spec fn leaves_text(value: Json, cap: nat) -> Seq<char> {
    fill(Seq::empty(), leaves(value), cap)
}

/// One event, reduced to what the state machine needs.
pub struct EventPlan {
    /// The context this event acts on. For `SubagentStart` that is the child,
    /// not the session the event arrived on.
    pub key: ContextKey,
    pub event_name: &'static str,
    /// The texts to match triggers against, in the order they are matched.
    pub texts: Vec<(TriggerField, String)>,
    /// Whether a critical arrival may stop the call, which only `PreToolUse`
    /// can do.
    pub may_deny: bool,
    /// The tool about to run, for `PreToolUse` alone.
    pub tool_name: Option<String>,
    /// Whether the answer also tells the model which session key to pass to
    /// the MCP tools.
    pub session_start: bool,
    /// The directory this event reports: the event's own `cwd`, except for
    /// `CwdChanged`, where it is the directory the event puts in force.
    pub cwd: Option<String>,
    /// Whether this event matches the two directory fields.
    pub matches_directories: bool,
    /// The task a subagent was given, as the client read it; absent outside a
    /// subagent.
    pub task: Option<String>,
    /// The kind of subagent that started, for `SubagentStart` alone.
    pub agent_type: Option<String>,
    /// The context that spawned the one this event acts on, for
    /// `SubagentStart` alone.
    pub parent: Option<ContextKey>,
    /// Whether the context size this event reports is the parent's, which is
    /// true of `SubagentStart` alone.
    pub tokens_are_the_parents: bool,
}

/// An event plan as plain values.
pub struct PlanView {
    pub key: KeyView,
    pub event_name: Seq<char>,
    pub texts: Seq<(TriggerField, Seq<char>)>,
    pub may_deny: bool,
    pub tool_name: Option<Seq<char>>,
    pub session_start: bool,
    pub cwd: Option<Seq<char>>,
    pub matches_directories: bool,
    pub task: Option<Seq<char>>,
    pub agent_type: Option<Seq<char>>,
    pub parent: Option<KeyView>,
    pub tokens_are_the_parents: bool,
}

/// The view of a plan's texts.
pub open spec fn texts_view(texts: Seq<(TriggerField, String)>) -> Seq<(TriggerField, Seq<char>)> {
    texts.map_values(|t: (TriggerField, String)| (t.0, t.1@))
}

/// The view of an optional key.
pub open spec fn opt_key(o: Option<ContextKey>) -> Option<KeyView> {
    match o {
        Some(k) => Some(k@),
        None => None,
    }
}

impl View for EventPlan {
    type V = PlanView;

    open spec fn view(&self) -> PlanView {
        PlanView {
            key: self.key@,
            event_name: self.event_name@,
            texts: texts_view(self.texts@),
            may_deny: self.may_deny,
            tool_name: opt_view(self.tool_name),
            session_start: self.session_start,
            cwd: opt_view(self.cwd),
            matches_directories: self.matches_directories,
            task: opt_view(self.task),
            agent_type: opt_view(self.agent_type),
            parent: opt_key(self.parent),
            tokens_are_the_parents: self.tokens_are_the_parents,
        }
    }
}

/// The names of this server's own MCP tools.
pub open spec fn own_tool_names() -> Seq<Seq<char>> {
    seq![
        "memory_index"@,
        "memory_get"@,
        "memory_history"@,
        "memory_blame"@,
        "memory_put"@,
        "memory_delete"@,
        "memory_replace_text"@,
        "memory_set_fields"@,
        "memory_rename"@,
        "branch_create"@,
        "branch_list"@,
        "branch_diff"@,
        "branch_land"@,
        "branch_abandon"@,
        "settings_get"@,
        "settings_set"@,
        "session_scopes"@,
        "session_scope_on"@,
        "session_scope_off"@,
        "session_inherit"@,
    ]
}

/// `mcp__`, the prefix a client gives every MCP tool's name.
pub open spec fn mcp_prefix() -> Seq<char> {
    "mcp__"@
}

/// Where the last `__` in `s` before `end` starts.
pub open spec fn last_pair_before(s: Seq<char>, end: int) -> Option<int>
    decreases end,
{
    if end < 2 || end > s.len() {
        None
    } else if s[end - 2] == '_' && s[end - 1] == '_' {
        Some(end - 2)
    } else {
        last_pair_before(s, end - 1)
    }
}

/// Whether `tool` is one of this server's own tools as a client names it:
/// `mcp__`, a non-empty server name, `__`, and the tool's own name, taken
/// after the last `__`.
pub open spec fn is_own_tool(tool: Seq<char>) -> bool {
    let prefix = mcp_prefix();
    let rest = tool.skip(prefix.len() as int);
    &&& tool.len() >= prefix.len()
    &&& tool.take(prefix.len() as int) == prefix
    &&& match last_pair_before(rest, rest.len() as int) {
        Some(p) => p > 0 && own_tool_names().contains(rest.skip(p + 2)),
        None => false,
    }
}

/// Whether the name, input and result of `tool` are kept from the triggers.
pub open spec fn is_exempt(settings: Settings, tool: Seq<char>) -> bool {
    is_own_tool(tool) || holds(settings.trigger_exempt_tools@, tool)
}

/// What may stand before the answer's first line in a tool result: digits,
/// whitespace and the arrow a numbered listing puts there.
pub open spec fn is_line_lead(c: char) -> bool {
    ('0' <= c && c <= '9') || is_white(c) || c == '\u{2192}'
}

/// A line without the lead a numbered listing puts before it.
pub open spec fn strip_lead(line: Seq<char>) -> Seq<char>
    decreases line.len(),
{
    if line.len() > 0 && is_line_lead(line[0]) {
        strip_lead(line.skip(1))
    } else {
        line
    }
}

/// Whether a line is the first line of one of this server's answers.
pub open spec fn opens_answer(line: Seq<char>) -> bool {
    let rest = strip_lead(line);
    rest.len() >= answer_marker().len() && rest.take(answer_marker().len() as int) == answer_marker()
}

/// Whether a text carries one of this server's answers on any of its lines.
pub open spec fn carries_answer(text: Seq<char>) -> bool {
    exists|i: int| 0 <= i < lines(text).len() && opens_answer(#[trigger] lines(text)[i])
}

/// The context an event belongs to: the subagent's when the event carries an
/// agent id other than `main`, else the session's own.
pub open spec fn key_of(machine: Seq<char>, common: HookCommon) -> KeyView {
    match common.agent_id {
        Some(a) => if a@ != main_agent() {
            KeyView { machine, session_id: common.session_id@, agent: a@ }
        } else {
            KeyView { machine, session_id: common.session_id@, agent: main_agent() }
        },
        None => KeyView { machine, session_id: common.session_id@, agent: main_agent() },
    }
}

/// The plan every known event starts from.
pub open spec fn base_plan(event: HookEvent, machine: Seq<char>, common: HookCommon, task: Option<Seq<char>>) -> PlanView {
    PlanView {
        key: key_of(machine, common),
        event_name: event_name_of(event),
        texts: Seq::empty(),
        may_deny: false,
        tool_name: None,
        session_start: false,
        cwd: opt_view(common.cwd),
        matches_directories: false,
        task: present_text(task),
        agent_type: None,
        parent: None,
        tokens_are_the_parents: false,
    }
}

/// What an event asks of its context, or `None` for an event that is only
/// acknowledged.
pub open spec fn planned(
    event: HookEvent,
    machine: Seq<char>,
    task: Option<Seq<char>>,
    parent_agent_id: Option<Seq<char>>,
    settings: Settings,
) -> Option<PlanView> {
    match event {
        HookEvent::SessionStart { common } => {
            let base = base_plan(event, machine, common, task);
            Some(PlanView {
                session_start: true,
                matches_directories: true,
                texts: text_entry(TriggerField::ShellDirectory, opt_view(common.cwd)),
                ..base
            })
        },
        HookEvent::UserPromptSubmit { common, prompt } => {
            let base = base_plan(event, machine, common, task);
            Some(PlanView { texts: text_entry(TriggerField::UserMessage, Some(prompt@)), ..base })
        },
        HookEvent::PreToolUse { common, tool_name, tool_input } => {
            let base = base_plan(event, machine, common, task);
            let matched = if is_exempt(settings, tool_name@) {
                Seq::empty()
            } else {
                text_entry(TriggerField::ToolName, Some(tool_name@)) + text_entry(
                    TriggerField::ToolInput,
                    Some(leaves_text(tool_input, usize::MAX as nat)),
                )
            };
            Some(PlanView {
                may_deny: true,
                matches_directories: true,
                tool_name: Some(tool_name@),
                texts: matched + text_entry(TriggerField::ShellDirectory, opt_view(common.cwd)),
                ..base
            })
        },
        HookEvent::PostToolUse { common, tool_name, tool_output } => {
            let base = base_plan(event, machine, common, task);
            let result = leaves_text(tool_output, settings.tool_result_match_limit as nat);
            let texts = if is_exempt(settings, tool_name@) || carries_answer(result) {
                Seq::empty()
            } else {
                text_entry(TriggerField::ToolResult, Some(result))
            };
            Some(PlanView { texts, ..base })
        },
        HookEvent::Stop { common, last_assistant_message } => {
            let base = base_plan(event, machine, common, task);
            Some(PlanView {
                texts: text_entry(TriggerField::AssistantMessage, opt_view(last_assistant_message)),
                ..base
            })
        },
        HookEvent::CwdChanged { common, cwd } => {
            let base = base_plan(event, machine, common, task);
            Some(PlanView {
                matches_directories: true,
                cwd: Some(cwd@),
                texts: text_entry(TriggerField::ShellDirectory, Some(cwd@)),
                ..base
            })
        },
        HookEvent::PostCompact { .. } => None,
        HookEvent::SubagentStart { common, agent_id, agent_type } => {
            let base = base_plan(event, machine, common, task);
            let session = common.session_id@;
            Some(PlanView {
                key: KeyView { machine, session_id: session, agent: agent_id@ },
                tokens_are_the_parents: true,
                agent_type: opt_view(agent_type),
                parent: Some(
                    match present_text(parent_agent_id) {
                        Some(p) => KeyView { machine, session_id: session, agent: p },
                        None => KeyView { machine, session_id: session, agent: main_agent() },
                    },
                ),
                texts: text_entry(TriggerField::UserMessage, present_text(task)),
                ..base
            })
        },
        HookEvent::Unknown => None,
    }
}


/// The view of an optional plan.
pub open spec fn opt_plan(p: Option<EventPlan>) -> Option<PlanView> {
    match p {
        Some(p) => Some(p@),
        None => None,
    }
}

/// How many characters of the lead a numbered listing puts before a line.
fn lead_length(line: &[char]) -> (k: usize)
    ensures
        k <= line.len(),
        line@.skip(k as int) == strip_lead(line@),
{
    let mut k: usize = 0;
    assert(line@.skip(0) =~= line@);
    while k < line.len()
        invariant
            k <= line.len(),
            strip_lead(line@) == strip_lead(line@.skip(k as int)),
        decreases line.len() - k,
    {
        let c = line[k];
        let lead = ('0' <= c && c <= '9') || is_whitespace(c) || c == '\u{2192}';
        assert(line@.skip(k as int)[0] == c);
        if !lead {
            return k;
        }
        assert(line@.skip(k as int).skip(1) =~= line@.skip(k + 1));
        k += 1;
    }
    assert(line@.skip(k as int) =~= Seq::<char>::empty());
    k
}

/// Whether `text` is this server's own answer handed back through a tool.
///
/// An answer past the store's threshold is written to a file whose preview
/// tells the model to read it, so the whole answer can come back as a tool
/// result; matched against the tool-result triggers it would turn on every
/// scope the answer names. The mark is the line every answer opens with,
/// looked for on any line after the digits, whitespace and arrow that a
/// numbered listing puts before it.
pub fn carries_own_answer(text: &str) -> (carries: bool)
    ensures
        carries == carries_answer(text@),
{
    let chars = chars_of(text);
    let all = lines_of(&chars);
    let marker = chars_of("[forgetmenot] context ");
    assert(marker@ == answer_marker());
    let mut i: usize = 0;
    while i < all.len()
        invariant
            i <= all@.len(),
            views(all@) == lines(text@),
            marker@ == answer_marker(),
            forall|j: int| 0 <= j < i ==> !opens_answer(#[trigger] lines(text@)[j]),
        decreases all.len() - i,
    {
        let line = &all[i];
        assert(line@ == lines(text@)[i as int]);
        let k = lead_length(line);
        let rest = crate::text::tail_from(line, k);
        if crate::text::starts_with_chars(&rest, &marker) {
            return true;
        }
        i += 1;
    }
    false
}

/// The names of this server's own MCP tools.
pub fn forgetmenot_tool_names() -> (names: Vec<&'static str>)
    ensures
        names@.len() == own_tool_names().len(),
        forall|i: int| 0 <= i < names@.len() ==> (#[trigger] names@[i])@ == own_tool_names()[i],
{
    let mut names: Vec<&'static str> = Vec::new();
    names.push("memory_index");
    names.push("memory_get");
    names.push("memory_history");
    names.push("memory_blame");
    names.push("memory_put");
    names.push("memory_delete");
    names.push("memory_replace_text");
    names.push("memory_set_fields");
    names.push("memory_rename");
    names.push("branch_create");
    names.push("branch_list");
    names.push("branch_diff");
    names.push("branch_land");
    names.push("branch_abandon");
    names.push("settings_get");
    names.push("settings_set");
    names.push("session_scopes");
    names.push("session_scope_on");
    names.push("session_scope_off");
    names.push("session_inherit");
    names
}

/// Whether `name` is the name of one of this server's own tools.
fn is_own_tool_name(name: &[char]) -> (own: bool)
    ensures
        own == own_tool_names().contains(name@),
{
    let names = forgetmenot_tool_names();
    let mut i: usize = 0;
    while i < names.len()
        invariant
            i <= names@.len(),
            names@.len() == own_tool_names().len(),
            forall|j: int| 0 <= j < names@.len() ==> (#[trigger] names@[j])@ == own_tool_names()[j],
            forall|j: int| 0 <= j < i ==> own_tool_names()[j] != name@,
        decreases names.len() - i,
    {
        let candidate = chars_of(names[i]);
        if same_chars(&candidate, name) {
            assert(own_tool_names()[i as int] == name@);
            return true;
        }
        i += 1;
    }
    assert forall|x: Seq<char>| own_tool_names().contains(x) implies x != name@ by {
        let j = choose|j: int| 0 <= j < own_tool_names().len() && own_tool_names()[j] == x;
        assert(own_tool_names()[j] != name@);
    }
    false
}

/// Whether `tool_name` is one of this server's own MCP tools as a client
/// names it: `mcp__`, the name the user registered this server under, `__`,
/// and the tool's own name. Any non-empty server name counts; the tool name
/// is what follows the last `__`.
fn is_forgetmenot_tool(tool_name: &str) -> (own: bool)
    ensures
        own == is_own_tool(tool_name@),
{
    let chars = chars_of(tool_name);
    let prefix = chars_of("mcp__");
    assert(prefix@ == mcp_prefix());
    if !crate::text::starts_with_chars(&chars, &prefix) {
        return false;
    }
    let rest = crate::text::tail_from(&chars, prefix.len());
    let mut end: usize = rest.len();
    while end >= 2 && !(rest[end - 2] == '_' && rest[end - 1] == '_')
        invariant
            end <= rest@.len(),
            last_pair_before(rest@, rest@.len() as int) == last_pair_before(rest@, end as int),
        decreases end,
    {
        end = end - 1;
    }
    if end < 2 {
        return false;
    }
    let p = end - 2;
    if p == 0 {
        return false;
    }
    let tool = crate::text::tail_from(&rest, p + 2);
    is_own_tool_name(&tool)
}

/// Whether the name, the input and the result of `tool_name` are kept out of
/// the texts the triggers are matched against: this server's own tools, whose
/// traffic names scopes and carries whole memories, and the tools the store
/// lists in `trigger_exempt_tools`.
pub fn triggers_exempt(settings: &Settings, tool_name: &str) -> (exempt: bool)
    ensures
        exempt == is_exempt(*settings, tool_name@),
{
    if is_forgetmenot_tool(tool_name) {
        return true;
    }
    let name = tool_name.to_owned();
    holds_string(&settings.trigger_exempt_tools, &name)
}

/// The context an event belongs to.
fn context_key(machine: &str, common: &HookCommon) -> (key: ContextKey)
    ensures
        key@ == key_of(machine@, *common),
{
    match &common.agent_id {
        Some(agent_id) => {
            proof {
                reveal_strlit("main");
            }
            let main = chars_of("main");
            assert(main@ =~= main_agent());
            let agent = chars_of(agent_id.as_str());
            if same_chars(&agent, &main) {
                ContextKey::main(machine, common.session_id.as_str())
            } else {
                ContextKey::subagent(machine, common.session_id.as_str(), agent_id.as_str())
            }
        },
        None => ContextKey::main(machine, common.session_id.as_str()),
    }
}

/// A copy of an optional string.
fn copy_text(o: &Option<String>) -> (out: Option<String>)
    ensures
        opt_view(out) == opt_view(*o),
{
    match o {
        Some(s) => Some(s.clone()),
        None => None,
    }
}

/// An optional text, with an empty one taken as none.
fn present(o: Option<&str>) -> (out: Option<String>)
    ensures
        opt_view(out) == present_text(opt_str(o)),
{
    match o {
        Some(t) => if t.is_empty() {
            None
        } else {
            Some(t.to_owned())
        },
        None => None,
    }
}

/// Adds `text` to the plan's texts under `field`, unless it is absent or empty.
fn push_text(texts: &mut Vec<(TriggerField, String)>, field: TriggerField, text: &Option<String>)
    ensures
        texts_view(final(texts)@) == texts_view(old(texts)@) + text_entry(field, opt_view(*text)),
{
    match text {
        Some(t) => {
            if t.as_str().is_empty() {
                assert(texts_view(texts@) =~= texts_view(texts@) + Seq::<(TriggerField, Seq<char>)>::empty());
            } else {
                let ghost before = texts@;
                texts.push((field, t.clone()));
                assert(texts_view(texts@) =~= texts_view(before) + seq![(field, t@)]);
            }
        },
        None => {
            assert(texts_view(texts@) =~= texts_view(texts@) + Seq::<(TriggerField, Seq<char>)>::empty());
        },
    }
}

/// The plan every known event starts from.
fn base(event: &HookEvent, machine: &str, common: &HookCommon, task: Option<&str>) -> (p: EventPlan)
    ensures
        p@ == base_plan(*event, machine@, *common, opt_str(task)),
{
    let p = EventPlan {
        key: context_key(machine, common),
        event_name: event.event_name(),
        texts: Vec::new(),
        may_deny: false,
        tool_name: None,
        session_start: false,
        cwd: copy_text(&common.cwd),
        matches_directories: false,
        task: present(task),
        agent_type: None,
        parent: None,
        tokens_are_the_parents: false,
    };
    assert(texts_view(p.texts@) =~= Seq::<(TriggerField, Seq<char>)>::empty());
    p
}

/// What to do about `event`, or `None` for an event that is only acknowledged:
/// one whose name this server does not know, and `PostCompact`, after which
/// the client sends a `SessionStart` for the conversation it rebuilds.
///
/// `task` is what the request said the subagent was asked to do and
/// `parent_agent_id` the subagent the request said spawned it; no hook event
/// carries either. `settings` say how much of a tool result is matched and
/// which tools are exempt from matching.
pub fn plan(
    event: &HookEvent,
    machine: &str,
    task: Option<&str>,
    parent_agent_id: Option<&str>,
    settings: &Settings,
) -> (planned_plan: Option<EventPlan>)
    ensures
        opt_plan(planned_plan) == planned(*event, machine@, opt_str(task), opt_str(parent_agent_id), *settings),
{
    match event {
        HookEvent::SessionStart { common } => {
            let mut p = base(event, machine, common, task);
            p.session_start = true;
            p.matches_directories = true;
            push_text(&mut p.texts, TriggerField::ShellDirectory, &common.cwd);
            Some(p)
        },
        HookEvent::UserPromptSubmit { common, prompt } => {
            let mut p = base(event, machine, common, task);
            push_text(&mut p.texts, TriggerField::UserMessage, &Some(prompt.clone()));
            Some(p)
        },
        HookEvent::PreToolUse { common, tool_name, tool_input } => {
            let mut p = base(event, machine, common, task);
            p.may_deny = true;
            p.matches_directories = true;
            p.tool_name = Some(tool_name.clone());
            if !triggers_exempt(settings, tool_name.as_str()) {
                push_text(&mut p.texts, TriggerField::ToolName, &Some(tool_name.clone()));
                let input = string_leaves(tool_input, usize::MAX);
                push_text(&mut p.texts, TriggerField::ToolInput, &Some(input));
            }
            push_text(&mut p.texts, TriggerField::ShellDirectory, &common.cwd);
            proof {
                let e = Seq::<(TriggerField, Seq<char>)>::empty();
                assert(e + text_entry(TriggerField::ToolName, Some(tool_name@)) + text_entry(
                    TriggerField::ToolInput,
                    Some(leaves_text(*tool_input, usize::MAX as nat)),
                ) =~= text_entry(TriggerField::ToolName, Some(tool_name@)) + text_entry(
                    TriggerField::ToolInput,
                    Some(leaves_text(*tool_input, usize::MAX as nat)),
                ));
                assert(e + text_entry(TriggerField::ShellDirectory, opt_view(common.cwd)) =~= text_entry(TriggerField::ShellDirectory, opt_view(common.cwd)));
            }
            Some(p)
        },
        HookEvent::PostToolUse { common, tool_name, tool_output } => {
            let mut p = base(event, machine, common, task);
            if !triggers_exempt(settings, tool_name.as_str()) {
                let result = string_leaves(tool_output, settings.tool_result_match_limit);
                if !carries_own_answer(result.as_str()) {
                    push_text(&mut p.texts, TriggerField::ToolResult, &Some(result));
                    assert(Seq::<(TriggerField, Seq<char>)>::empty() + text_entry(TriggerField::ToolResult, Some(result@)) =~= text_entry(TriggerField::ToolResult, Some(result@)));
                }
            }
            Some(p)
        },
        HookEvent::Stop { common, last_assistant_message } => {
            let mut p = base(event, machine, common, task);
            push_text(&mut p.texts, TriggerField::AssistantMessage, last_assistant_message);
            assert(Seq::<(TriggerField, Seq<char>)>::empty() + text_entry(TriggerField::AssistantMessage, opt_view(*last_assistant_message)) =~= text_entry(TriggerField::AssistantMessage, opt_view(*last_assistant_message)));
            Some(p)
        },
        HookEvent::CwdChanged { common, cwd } => {
            let mut p = base(event, machine, common, task);
            p.matches_directories = true;
            p.cwd = Some(cwd.clone());
            push_text(&mut p.texts, TriggerField::ShellDirectory, &Some(cwd.clone()));
            assert(Seq::<(TriggerField, Seq<char>)>::empty() + text_entry(TriggerField::ShellDirectory, Some(cwd@)) =~= text_entry(TriggerField::ShellDirectory, Some(cwd@)));
            Some(p)
        },
        HookEvent::PostCompact { .. } => None,
        HookEvent::SubagentStart { common, agent_id, agent_type } => {
            let mut p = base(event, machine, common, task);
            p.key = ContextKey::subagent(machine, common.session_id.as_str(), agent_id.as_str());
            p.tokens_are_the_parents = true;
            p.agent_type = copy_text(agent_type);
            p.parent = Some(
                match present(parent_agent_id) {
                    Some(parent) => ContextKey::subagent(machine, common.session_id.as_str(), parent.as_str()),
                    None => ContextKey::main(machine, common.session_id.as_str()),
                },
            );
            let given = copy_text(&p.task);
            push_text(&mut p.texts, TriggerField::UserMessage, &given);
            assert(Seq::<(TriggerField, Seq<char>)>::empty() + text_entry(TriggerField::UserMessage, present_text(opt_str(task))) =~= text_entry(TriggerField::UserMessage, present_text(opt_str(task))));
            Some(p)
        },
        HookEvent::Unknown => None,
    }
}

/// What the agent says and what the user says are matched against the
/// triggers: a `Stop` event carrying the agent's reply is planned with that
/// reply as the one text, as the assistant's message, and a prompt is planned
/// with the prompt as the one text, as the user's message. An empty reply or
/// prompt is no text.
pub proof fn lemma_replies_and_prompts_are_matched(
    event: HookEvent,
    machine: Seq<char>,
    task: Option<Seq<char>>,
    parent_agent_id: Option<Seq<char>>,
    settings: Settings,
)
    ensures
        (event matches HookEvent::Stop { last_assistant_message: Some(msg), .. } && msg@.len() > 0) ==> (planned(
            event,
            machine,
            task,
            parent_agent_id,
            settings,
        ) is Some && planned(event, machine, task, parent_agent_id, settings)->0.texts == seq![
            (TriggerField::AssistantMessage, event->last_assistant_message->0@),
        ]),
        (event matches HookEvent::Stop { last_assistant_message: Some(msg), .. } && msg@.len() == 0) ==> planned(
            event,
            machine,
            task,
            parent_agent_id,
            settings,
        )->0.texts.len() == 0,
        (event matches HookEvent::UserPromptSubmit { prompt, .. } && prompt@.len() > 0) ==> (planned(
            event,
            machine,
            task,
            parent_agent_id,
            settings,
        ) is Some && planned(event, machine, task, parent_agent_id, settings)->0.texts == seq![
            (TriggerField::UserMessage, event->prompt@),
        ]),
{
}

} // verus!
