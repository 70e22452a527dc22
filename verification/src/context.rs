//! The per-context state machine.
//!
//! A context is one session of the agent harness, or one subagent inside it. Its state
//! is the set of scopes it works in and the record of what has been delivered
//! into it; the functions here are pure, so what a context needs next is
//! decided by the catalog and the state alone.
use vstd::prelude::*;

use crate::catalog::{
    delivered_text, due_in, holds, is_due, string_views, Catalog, MemoryEntry, MemoryKind,
};
use crate::scopes::{global_id, machine_id, session_scope_id};
use crate::text::{
    chars_of, has_char, lemma_split_concat, lemma_split_nonempty, lemma_split_without_sep,
    lines, push_str, same_chars, seq_lt, split_chars, split_on, string_of, strictly_sorted,
    views,
};

verus! {

/// `main`, the agent part of the key of a session's own context.
pub open spec fn main_agent() -> Seq<char> {
    seq!['m', 'a', 'i', 'n']
}

/// Which context an event belongs to.
#[derive(Clone, Debug, PartialEq, Eq, PartialOrd, Ord, Hash)]
pub struct ContextKey {
    pub machine: String,
    pub session_id: String,
    /// `main` for the session itself, else the subagent's id.
    pub agent: String,
}

/// A context key as three texts.
pub struct KeyView {
    pub machine: Seq<char>,
    pub session_id: Seq<char>,
    pub agent: Seq<char>,
}

impl View for ContextKey {
    type V = KeyView;

    open spec fn view(&self) -> KeyView {
        KeyView { machine: self.machine@, session_id: self.session_id@, agent: self.agent@ }
    }
}

/// The text a key is written as: `machine/session-id`, with `/agent-id` after
/// it for a subagent.
pub open spec fn key_text(k: KeyView) -> Seq<char> {
    let session = k.machine + seq!['/'] + k.session_id;
    if k.agent == main_agent() {
        session
    } else {
        session + seq!['/'] + k.agent
    }
}

/// The context a text names: two non-empty parts name a session's own
/// context, three a subagent's, and anything else names none.
pub open spec fn parse_key(text: Seq<char>) -> Option<KeyView> {
    let parts = split_on(text, '/');
    let complete = forall|i: int| 0 <= i < parts.len() ==> #[trigger] parts[i].len() > 0;
    if complete && parts.len() == 2 {
        Some(KeyView { machine: parts[0], session_id: parts[1], agent: main_agent() })
    } else if complete && parts.len() == 3 {
        Some(KeyView { machine: parts[0], session_id: parts[1], agent: parts[2] })
    } else {
        None
    }
}

/// A text that names no context.
#[derive(Clone, Debug)]
pub struct ContextKeyError {
    pub text: String,
}

impl ContextKeyError {
    /// What was wrong, for the caller who handed the text in.
    pub fn message(&self) -> (m: String)
        ensures
            m@ == "a context key is `machine/session-id`, or `machine/session-id/agent-id` for a subagent, not `"@
                + self.text@ + "`"@,
    {
        let mut out: Vec<char> = Vec::new();
        push_str(
            &mut out,
            "a context key is `machine/session-id`, or `machine/session-id/agent-id` for a subagent, not `",
        );
        push_str(&mut out, self.text.as_str());
        push_str(&mut out, "`");
        string_of(&out)
    }
}

/// The string `main`.
fn main_agent_string() -> (s: String)
    ensures
        s@ == main_agent(),
{
    proof {
        reveal_strlit("main");
    }
    "main".to_owned()
}

impl ContextKey {
    /// The key of a session's main context.
    pub fn main(machine: &str, session_id: &str) -> (key: ContextKey)
        ensures
            key@ == (KeyView { machine: machine@, session_id: session_id@, agent: main_agent() }),
    {
        ContextKey {
            machine: machine.to_owned(),
            session_id: session_id.to_owned(),
            agent: main_agent_string(),
        }
    }

    /// The key of one subagent inside a session.
    pub fn subagent(machine: &str, session_id: &str, agent_id: &str) -> (key: ContextKey)
        ensures
            key@ == (KeyView { machine: machine@, session_id: session_id@, agent: agent_id@ }),
    {
        ContextKey {
            machine: machine.to_owned(),
            session_id: session_id.to_owned(),
            agent: agent_id.to_owned(),
        }
    }

    /// The same key again.
    pub fn duplicate(&self) -> (key: ContextKey)
        ensures
            key == *self,
    {
        ContextKey {
            machine: self.machine.clone(),
            session_id: self.session_id.clone(),
            agent: self.agent.clone(),
        }
    }

    /// Whether this is a subagent's context.
    pub fn is_subagent(&self) -> (sub: bool)
        ensures
            sub == (self.agent@ != main_agent()),
    {
        let main = main_agent_string();
        !(self.agent == main)
    }

    /// The main context of the same session, which is a subagent's parent.
    pub fn session_context(&self) -> (key: ContextKey)
        ensures
            key@ == (KeyView {
                machine: self.machine@,
                session_id: self.session_id@,
                agent: main_agent(),
            }),
    {
        ContextKey::main(self.machine.as_str(), self.session_id.as_str())
    }

    /// The implicit scope of this context's session.
    pub fn session_scope(&self) -> (scope: String)
        ensures
            scope@ == session_scope_id(self.machine@, self.session_id@),
    {
        crate::scopes::session(self.machine.as_str(), self.session_id.as_str())
    }

    /// The key as MCP tools take it as `session_key`: the agent part is written
    /// only when there is a subagent to name.
    pub fn to_string(&self) -> (text: String)
        ensures
            text@ == key_text(self@),
    {
        let mut out: Vec<char> = Vec::new();
        proof {
            reveal_strlit("/");
        }
        push_str(&mut out, self.machine.as_str());
        push_str(&mut out, "/");
        push_str(&mut out, self.session_id.as_str());
        if self.is_subagent() {
            push_str(&mut out, "/");
            push_str(&mut out, self.agent.as_str());
        }
        string_of(&out)
    }

    /// The context a key names, in the form [`ContextKey::to_string`] writes it.
    ///
    /// A key with a part missing names nothing: `alpha/` would be the session
    /// with the empty id, which no session ever reads.
    pub fn parse(text: &str) -> (parsed: Result<ContextKey, ContextKeyError>)
        ensures
            match parsed {
                Ok(key) => parse_key(text@) == Some(key@),
                Err(error) => parse_key(text@) is None && error.text@ == text@,
            },
    {
        let chars = chars_of(text);
        let parts = split_chars(&chars, '/');
        let ghost spec_parts = split_on(text@, '/');
        assert(views(parts@) == spec_parts);
        let mut complete = true;
        let mut i: usize = 0;
        while i < parts.len()
            invariant
                i <= parts.len(),
                views(parts@) == spec_parts,
                complete == (forall|j: int| 0 <= j < i ==> #[trigger] spec_parts[j].len() > 0),
            decreases parts.len() - i,
        {
            assert(spec_parts[i as int] == parts@[i as int]@);
            if parts[i].len() == 0 {
                complete = false;
            }
            i += 1;
        }
        if complete && parts.len() == 2 {
            let key = ContextKey {
                machine: string_of(&parts[0]),
                session_id: string_of(&parts[1]),
                agent: main_agent_string(),
            };
            assert(spec_parts[0] == parts@[0]@ && spec_parts[1] == parts@[1]@);
            Ok(key)
        } else if complete && parts.len() == 3 {
            let key = ContextKey {
                machine: string_of(&parts[0]),
                session_id: string_of(&parts[1]),
                agent: string_of(&parts[2]),
            };
            assert(spec_parts[0] == parts@[0]@ && spec_parts[1] == parts@[1]@ && spec_parts[2]
                == parts@[2]@);
            Ok(key)
        } else {
            Err(ContextKeyError { text: text.to_owned() })
        }
    }
}

/// A key printed with [`ContextKey::to_string`] is read back by
/// [`ContextKey::parse`] as the same context, whenever its parts are not empty
/// and hold no `/`: the grammar a key is printed in and the one it is read
/// back with are the same.
pub proof fn lemma_key_text_parses_back(k: KeyView)
    requires
        k.machine.len() > 0,
        k.session_id.len() > 0,
        k.agent.len() > 0,
        !has_char(k.machine, '/'),
        !has_char(k.session_id, '/'),
        !has_char(k.agent, '/'),
    ensures
        parse_key(key_text(k)) == Some(k),
{
    lemma_split_without_sep(k.machine, '/');
    lemma_split_without_sep(k.session_id, '/');
    lemma_split_without_sep(k.agent, '/');
    lemma_split_concat(k.machine, k.session_id, '/');
    let parts2 = split_on(k.machine + seq!['/'] + k.session_id, '/');
    assert(parts2 =~= seq![k.machine, k.session_id]);
    if k.agent == main_agent() {
        let parts = split_on(key_text(k), '/');
        assert(parts[0].len() > 0 && parts[1].len() > 0);
    } else {
        lemma_split_concat(k.machine + seq!['/'] + k.session_id, k.agent, '/');
        let parts = split_on(key_text(k), '/');
        assert(parts =~= seq![k.machine, k.session_id, k.agent]);
        assert(parts[0].len() > 0 && parts[1].len() > 0 && parts[2].len() > 0);
    }
}

/// The scopes a context starts in: everything global, everything for its
/// machine, and its own session's silo, in id order.
pub fn initial_active(machine: &str, session_id: &str) -> (active: Vec<String>)
    ensures
        crate::catalog::string_views(active@) == seq![
            global_id(),
            machine_id(machine@),
            session_scope_id(machine@, session_id@),
        ],
        strictly_sorted(crate::catalog::string_views(active@)),
{
    let mut active: Vec<String> = Vec::new();
    active.push(crate::scopes::global());
    active.push(crate::scopes::machine(machine));
    active.push(crate::scopes::session(machine, session_id));
    let ghost v = crate::catalog::string_views(active@);
    assert(v =~= seq![global_id(), machine_id(machine@), session_scope_id(machine@, session_id@)]);
    assert(seq_lt(v[0], v[1]));
    assert(seq_lt(v[1], v[2]));
    assert(seq_lt(v[0], v[2]));
    active
}


/// How much of a memory a context has been given.
#[derive(Clone, Copy, Debug, PartialEq, Eq, Structural)]
pub enum Form {
    /// The whole body.
    Full,
    /// One index line, with the id to fetch the body by.
    Index,
}

/// The form a memory of this kind is delivered in.
pub open spec fn form_for(kind: MemoryKind) -> Form {
    match kind {
        MemoryKind::Critical => Form::Full,
        MemoryKind::Knowledge => Form::Index,
    }
}

impl Form {
    /// The form a memory of this kind is delivered in when it becomes due.
    pub fn for_kind(kind: MemoryKind) -> (form: Form)
        ensures
            form == form_for(kind),
    {
        match kind {
            MemoryKind::Critical => Form::Full,
            MemoryKind::Knowledge => Form::Index,
        }
    }

    pub fn as_str(self) -> (name: &'static str)
        ensures
            name@ == (match self {
                Form::Full => "full"@,
                Form::Index => "index"@,
            }),
    {
        match self {
            Form::Full => "full",
            Form::Index => "index",
        }
    }
}

/// What was delivered to a context for one memory.
#[derive(Clone, Debug, PartialEq, Eq)]
pub struct Shown {
    /// The blob id of the file that was delivered, as hex.
    pub version: String,
    pub form: Form,
    /// The context size the staleness of this delivery is counted from,
    /// absent while no event of this context has reported one.
    pub tokens: Option<u64>,
}

impl Shown {
    /// The same record again.
    pub fn duplicate(&self) -> (out: Shown)
        ensures
            out == *self,
    {
        Shown { version: self.version.clone(), form: self.form, tokens: self.tokens }
    }
}

/// One memory a context holds, with what it was given of it.
#[derive(Clone, Debug, PartialEq, Eq)]
pub struct Delivered {
    pub id: String,
    pub shown: Shown,
}

/// The ids of a sequence of deliveries.
pub open spec fn delivered_ids(v: Seq<Delivered>) -> Seq<Seq<char>> {
    v.map_values(|d: Delivered| d.id@)
}

/// Whether a delivery of `id` is recorded.
pub open spec fn has_entry(v: Seq<Delivered>, id: Seq<char>) -> bool {
    exists|i: int| 0 <= i < v.len() && v[i].id@ == id
}

/// What is recorded for `id`.
pub open spec fn shown_of(v: Seq<Delivered>, id: Seq<char>) -> Option<Shown> {
    if has_entry(v, id) {
        Some(v[choose|i: int| 0 <= i < v.len() && v[i].id@ == id].shown)
    } else {
        None
    }
}

/// What is recorded, as a map from memory id.
pub open spec fn delivered_map(v: Seq<Delivered>) -> Map<Seq<char>, Shown> {
    Map::new(
        |id: Seq<char>| has_entry(v, id),
        |id: Seq<char>|
            match shown_of(v, id) {
                Some(shown) => shown,
                None => arbitrary(),
            },
    )
}

/// The delivery recorded at position `i` is what is recorded for its id.
pub proof fn lemma_shown_at(v: Seq<Delivered>, i: int)
    requires
        strictly_sorted(delivered_ids(v)),
        0 <= i < v.len(),
    ensures
        has_entry(v, v[i].id@),
        shown_of(v, v[i].id@) == Some(v[i].shown),
{
    assert(v[i].id@ == delivered_ids(v)[i]);
    let j = choose|j: int| 0 <= j < v.len() && v[j].id@ == v[i].id@;
    assert(delivered_ids(v)[j] == delivered_ids(v)[i]);
    crate::text::lemma_sorted_unique(delivered_ids(v), i, j);
}

/// Where the delivery of `id` is recorded, or `None` when none is.
pub fn find_delivered(v: &Vec<Delivered>, id: &String) -> (found: Option<usize>)
    ensures
        match found {
            Some(i) => i < v@.len() && v@[i as int].id@ == id@,
            None => !has_entry(v@, id@),
        },
{
    let mut i: usize = 0;
    while i < v.len()
        invariant
            i <= v@.len(),
            forall|j: int| 0 <= j < i ==> v@[j].id@ != id@,
        decreases v.len() - i,
    {
        if v[i].id == *id {
            return Some(i);
        }
        i += 1;
    }
    None
}

/// Record `entry`, replacing whatever was recorded for its id, and keep the
/// records ordered by id.
pub fn upsert_delivered(v: &mut Vec<Delivered>, entry: Delivered)
    requires
        strictly_sorted(delivered_ids(old(v)@)),
    ensures
        strictly_sorted(delivered_ids(final(v)@)),
        delivered_map(final(v)@) == delivered_map(old(v)@).insert(entry.id@, entry.shown),
{
    let ghost before = v@;
    let key = chars_of(entry.id.as_str());
    let mut p: usize = 0;
    while p < v.len() && crate::text::chars_lt(&chars_of(v[p].id.as_str()), &key)
        invariant
            v@ == before,
            key@ == entry.id@,
            p <= v@.len(),
            forall|j: int| 0 <= j < p ==> seq_lt(#[trigger] v@[j].id@, entry.id@),
        decreases v.len() - p,
    {
        p += 1;
    }
    let ghost id = entry.id@;
    let ghost shown = entry.shown;
    if p < v.len() && v[p].id == entry.id {
        v.set(p, entry);
        assert(delivered_ids(v@) =~= delivered_ids(before));
        assert forall|k: Seq<char>| #[trigger] delivered_map(v@).dom().contains(k)
            == delivered_map(before).insert(id, shown).dom().contains(k) by {
            if has_entry(before, k) {
                let i = choose|i: int| 0 <= i < before.len() && before[i].id@ == k;
                assert(v@[i].id@ == k);
            }
            if has_entry(v@, k) {
                let i = choose|i: int| 0 <= i < v@.len() && v@[i].id@ == k;
                assert(before[i].id@ == k);
            }
            if k == id {
                assert(v@[p as int].id@ == k);
            }
        }
        assert forall|k: Seq<char>| #[trigger] delivered_map(v@).dom().contains(k) implies
            delivered_map(v@)[k] == delivered_map(before).insert(id, shown)[k] by {
            let i = choose|i: int| 0 <= i < v@.len() && v@[i].id@ == k;
            lemma_shown_at(v@, i);
            if i != p {
                assert(v@[i] == before[i]);
                lemma_shown_at(before, i);
                if k == id {
                    assert(delivered_ids(v@)[i] == delivered_ids(v@)[p as int]);
                    crate::text::lemma_sorted_unique(delivered_ids(v@), i, p as int);
                }
            }
        }
        assert(delivered_map(v@) =~= delivered_map(before).insert(id, shown));
    } else {
        proof {
            if p < before.len() {
                crate::text::lemma_seq_lt_total(before[p as int].id@, id);
            }
        }
        v.insert(p, entry);
        let ghost after = v@;
        assert forall|i: int, j: int| 0 <= i < j < after.len() implies seq_lt(
            #[trigger] delivered_ids(after)[i],
            #[trigger] delivered_ids(after)[j],
        ) by {
            if j < p {
                assert(delivered_ids(before)[i] == after[i].id@);
                assert(delivered_ids(before)[j] == after[j].id@);
            } else if j == p {
            } else if i == p {
                // `j - 1` is a later record than the one at `p`.
                assert(after[j].id@ == before[j - 1].id@);
                if j - 1 > p {
                    assert(seq_lt(delivered_ids(before)[p as int], delivered_ids(before)[j - 1]));
                    crate::text::lemma_seq_lt_transitive(id, before[p as int].id@, before[j - 1].id@);
                }
            } else if i < p {
                assert(after[j].id@ == before[j - 1].id@);
                if j - 1 >= p {
                    crate::text::lemma_seq_lt_total(before[p as int].id@, id);
                    if j - 1 > p {
                        assert(seq_lt(delivered_ids(before)[p as int], delivered_ids(before)[j - 1]));
                        crate::text::lemma_seq_lt_transitive(id, before[p as int].id@, before[j - 1].id@);
                    }
                    crate::text::lemma_seq_lt_transitive(after[i].id@, id, after[j].id@);
                }
            } else {
                assert(after[i].id@ == before[i - 1].id@);
                assert(after[j].id@ == before[j - 1].id@);
                assert(delivered_ids(before)[i - 1] == before[i - 1].id@);
                assert(delivered_ids(before)[j - 1] == before[j - 1].id@);
            }
        }
        assert forall|k: Seq<char>| #[trigger] delivered_map(after).dom().contains(k)
            == delivered_map(before).insert(id, shown).dom().contains(k) by {
            if has_entry(before, k) {
                let i = choose|i: int| 0 <= i < before.len() && before[i].id@ == k;
                if i < p {
                    assert(after[i].id@ == k);
                } else {
                    assert(after[i + 1].id@ == k);
                }
            }
            if has_entry(after, k) {
                let i = choose|i: int| 0 <= i < after.len() && after[i].id@ == k;
                if i < p {
                    assert(before[i].id@ == k);
                } else if i > p {
                    assert(before[i - 1].id@ == k);
                }
            }
            if k == id {
                assert(after[p as int].id@ == k);
            }
        }
        assert forall|k: Seq<char>| #[trigger] delivered_map(after).dom().contains(k) implies
            delivered_map(after)[k] == delivered_map(before).insert(id, shown)[k] by {
            let i = choose|i: int| 0 <= i < after.len() && after[i].id@ == k;
            lemma_shown_at(after, i);
            if i < p {
                lemma_shown_at(before, i);
                assert(after[i] == before[i]);
                assert(seq_lt(before[i].id@, id));
                crate::text::lemma_seq_lt_irreflexive(id);
                assert(after[i].id@ != id);
            } else if i > p {
                lemma_shown_at(before, i - 1);
                assert(after[i] == before[i - 1]);
                if k == id {
                    assert(delivered_ids(after)[i] == delivered_ids(after)[p as int]);
                    crate::text::lemma_sorted_unique(delivered_ids(after), i, p as int);
                }
            }
        }
        assert(delivered_map(after) =~= delivered_map(before).insert(id, shown));
    }
}

/// Forget what was recorded for `id`.
pub fn remove_delivered(v: &mut Vec<Delivered>, id: &String)
    requires
        strictly_sorted(delivered_ids(old(v)@)),
    ensures
        strictly_sorted(delivered_ids(final(v)@)),
        delivered_map(final(v)@) == delivered_map(old(v)@).remove(id@),
{
    let ghost before = v@;
    match find_delivered(v, id) {
        None => {
            assert(delivered_map(before).remove(id@) =~= delivered_map(before));
        },
        Some(p) => {
            v.remove(p);
            let ghost after = v@;
            assert forall|i: int, j: int| 0 <= i < j < after.len() implies seq_lt(
                #[trigger] delivered_ids(after)[i],
                #[trigger] delivered_ids(after)[j],
            ) by {
                let oi = if i < p { i } else { i + 1 };
                let oj = if j < p { j } else { j + 1 };
                assert(after[i] == before[oi]);
                assert(after[j] == before[oj]);
                assert(delivered_ids(before)[oi] == before[oi].id@);
                assert(delivered_ids(before)[oj] == before[oj].id@);
            }
            assert forall|k: Seq<char>| #[trigger] delivered_map(after).dom().contains(k)
                == delivered_map(before).remove(id@).dom().contains(k) by {
                if has_entry(before, k) && k != id@ {
                    let i = choose|i: int| 0 <= i < before.len() && before[i].id@ == k;
                    if i < p {
                        assert(after[i].id@ == k);
                    } else if i > p {
                        assert(after[i - 1].id@ == k);
                    }
                }
                if has_entry(after, k) {
                    let i = choose|i: int| 0 <= i < after.len() && after[i].id@ == k;
                    let o = if i < p { i } else { i + 1 };
                    assert(before[o].id@ == k);
                    lemma_shown_at(before, p as int);
                    if k == id@ {
                        crate::text::lemma_sorted_unique(delivered_ids(before), o, p as int);
                    }
                }
            }
            assert forall|k: Seq<char>| #[trigger] delivered_map(after).dom().contains(k) implies
                delivered_map(after)[k] == delivered_map(before).remove(id@)[k] by {
                let i = choose|i: int| 0 <= i < after.len() && after[i].id@ == k;
                let o = if i < p { i } else { i + 1 };
                assert(before[o] == after[i]);
                lemma_shown_at(after, i);
                lemma_shown_at(before, o);
            }
            assert(delivered_map(after) =~= delivered_map(before).remove(id@));
        },
    }
}


/// One context's state.
#[derive(Clone, Debug)]
pub struct ContextState {
    /// The scopes this context works in.
    pub active: Vec<String>,
    /// What has been delivered, and in what form, ordered by memory id.
    pub delivered: Vec<Delivered>,
    /// The context this one inherited its scopes from, for a subagent.
    pub parent: Option<ContextKey>,
    /// The directory the harness was started in: the `cwd` of this context's
    /// first event.
    pub session_directory: Option<String>,
    /// The name the user gave this session, as the client last read it.
    pub session_title: Option<String>,
    /// The first thing the user said in this session.
    pub first_prompt: Option<String>,
    /// The task a subagent was given.
    pub task: Option<String>,
    /// The kind of subagent this is.
    pub agent_type: Option<String>,
    /// The context size the last event that carried one reported.
    pub tokens: Option<u64>,
    /// The context size at the last activation of each scope that has a
    /// `forget` rule, which is what the count since that activation is
    /// measured from.
    pub activated_at: Vec<Activation>,
    /// When the context was last seen, in seconds since the epoch.
    pub last_seen: i64,
}

/// When one scope was last turned on, in context tokens.
#[derive(Clone, Debug, PartialEq, Eq)]
pub struct Activation {
    pub scope: String,
    pub tokens: u64,
}

/// The activation recorded first for `scope`.
pub open spec fn activation_of(v: Seq<Activation>, scope: Seq<char>) -> Option<u64>
    decreases v.len(),
{
    if v.len() == 0 {
        None
    } else if v[0].scope@ == scope {
        Some(v[0].tokens)
    } else {
        activation_of(v.skip(1), scope)
    }
}

/// The activations, as a map from scope id.
pub open spec fn activation_map(v: Seq<Activation>) -> Map<Seq<char>, u64> {
    Map::new(|k: Seq<char>| activation_of(v, k) is Some, |k: Seq<char>| activation_of(v, k)->0)
}

/// Where the activation of `scope` is recorded first.
fn find_activation(v: &Vec<Activation>, scope: &String) -> (found: Option<usize>)
    ensures
        match found {
            Some(i) => i < v@.len() && v@[i as int].scope@ == scope@ && activation_of(v@, scope@) == Some(v@[i as int].tokens)
                && forall|j: int| 0 <= j < i ==> v@[j].scope@ != scope@,
            None => activation_of(v@, scope@) is None && forall|j: int| 0 <= j < v@.len() ==> v@[j].scope@ != scope@,
        },
{
    let mut i: usize = 0;
    assert(v@.skip(0) =~= v@);
    while i < v.len()
        invariant
            i <= v@.len(),
            activation_of(v@, scope@) == activation_of(v@.skip(i as int), scope@),
            forall|j: int| 0 <= j < i ==> v@[j].scope@ != scope@,
        decreases v.len() - i,
    {
        assert(v@.skip(i as int)[0] == v@[i as int]);
        if v[i].scope == *scope {
            return Some(i);
        }
        assert(v@.skip(i as int).skip(1) =~= v@.skip(i + 1));
        i += 1;
    }
    None
}

/// The first activation for `scope` in a sequence that holds none before `i`
/// is the one at `i`; an entry for another scope changes no lookup but its own.
proof fn lemma_activation_update(v: Seq<Activation>, i: int, a: Activation, k: Seq<char>)
    requires
        0 <= i < v.len(),
        v[i].scope@ == a.scope@,
        forall|j: int| 0 <= j < i ==> v[j].scope@ != a.scope@,
    ensures
        activation_of(v.update(i, a), k) == (if k == a.scope@ {
            Some(a.tokens)
        } else {
            activation_of(v, k)
        }),
    decreases i,
{
    if i == 0 {
        assert(v.update(i, a).skip(1) =~= v.skip(1));
    } else {
        assert(v.update(i, a).skip(1) =~= v.skip(1).update(i - 1, a));
        lemma_activation_update(v.skip(1), i - 1, a, k);
    }
}

/// Adding an entry at the end changes only the lookup of a scope not
/// recorded before.
proof fn lemma_activation_push(v: Seq<Activation>, a: Activation, k: Seq<char>)
    requires
        forall|j: int| 0 <= j < v.len() ==> v[j].scope@ != a.scope@,
    ensures
        activation_of(v.push(a), k) == (if k == a.scope@ {
            Some(a.tokens)
        } else {
            activation_of(v, k)
        }),
    decreases v.len(),
{
    if v.len() == 0 {
        assert(v.push(a).skip(1) =~= Seq::<Activation>::empty());
        assert(activation_of(Seq::<Activation>::empty(), k) is None);
        assert(v =~= Seq::<Activation>::empty());
    } else {
        assert(v.push(a).skip(1) =~= v.skip(1).push(a));
        assert(v.push(a)[0] == v[0]);
        lemma_activation_push(v.skip(1), a, k);
    }
}

/// Removing the entry at `i`, the first for its scope when no later one
/// holds it, forgets that scope alone.
proof fn lemma_activation_remove(v: Seq<Activation>, i: int, k: Seq<char>)
    requires
        0 <= i < v.len(),
        forall|j: int| 0 <= j < v.len() && j != i ==> v[j].scope@ != v[i].scope@,
    ensures
        activation_of(v.remove(i), k) == (if k == v[i].scope@ {
            None
        } else {
            activation_of(v, k)
        }),
    decreases v.len(),
{
    if i == 0 {
        assert(v.remove(0) =~= v.skip(1));
        lemma_activation_absent(v.skip(1), v[0].scope@);
    } else {
        assert(v.remove(i).skip(1) =~= v.skip(1).remove(i - 1));
        assert(v.remove(i)[0] == v[0]);
        lemma_activation_remove(v.skip(1), i - 1, k);
    }
}

/// A scope no entry holds has no activation.
proof fn lemma_activation_absent(v: Seq<Activation>, k: Seq<char>)
    requires
        forall|j: int| 0 <= j < v.len() ==> v[j].scope@ != k,
    ensures
        activation_of(v, k) is None,
    decreases v.len(),
{
    if v.len() > 0 {
        lemma_activation_absent(v.skip(1), k);
    }
}

/// Records that `scope` was turned on at `tokens`.
pub fn set_activation(v: &mut Vec<Activation>, scope: &String, tokens: u64)
    requires
        unique_activations(old(v)@),
    ensures
        unique_activations(final(v)@),
        activation_map(final(v)@) == activation_map(old(v)@).insert(scope@, tokens),
{
    let entry = Activation { scope: scope.clone(), tokens };
    match find_activation(v, scope) {
        Some(i) => {
            let ghost before = v@;
            v.set(i, entry);
            proof {
                assert forall|k: Seq<char>| #![auto] activation_of(v@, k) == (if k == scope@ { Some(tokens) } else { activation_of(before, k) }) by {
                    lemma_activation_update(before, i as int, entry, k);
                }
                assert(activation_map(v@) =~= activation_map(before).insert(scope@, tokens));
            }
        },
        None => {
            let ghost before = v@;
            v.push(entry);
            proof {
                assert forall|k: Seq<char>| #![auto] activation_of(v@, k) == (if k == scope@ { Some(tokens) } else { activation_of(before, k) }) by {
                    lemma_activation_push(before, entry, k);
                }
                assert(activation_map(v@) =~= activation_map(before).insert(scope@, tokens));
            }
        },
    }
}

/// Forgets when `scope` was turned on.
pub fn clear_activation(v: &mut Vec<Activation>, scope: &String)
    requires
        unique_activations(old(v)@),
    ensures
        unique_activations(final(v)@),
        activation_map(final(v)@) == activation_map(old(v)@).remove(scope@),
{
    match find_activation(v, scope) {
        Some(i) => {
            let ghost before = v@;
            v.remove(i);
            proof {
                assert forall|k: Seq<char>| #![auto] activation_of(v@, k) == (if k == scope@ { None } else { activation_of(before, k) }) by {
                    lemma_activation_remove(before, i as int, k);
                }
                assert(activation_map(v@) =~= activation_map(before).remove(scope@));
            }
        },
        None => {
            assert(activation_map(v@) =~= activation_map(v@).remove(scope@));
        },
    }
}

/// Each scope is recorded at most once.
pub open spec fn unique_activations(v: Seq<Activation>) -> bool {
    forall|i: int, j: int| 0 <= i < v.len() && 0 <= j < v.len() && i != j ==> v[i].scope@ != v[j].scope@
}

/// Whether two states hold the same: the same scopes, deliveries and
/// activations, and the same of everything else.
pub open spec fn same_state(a: ContextState, b: ContextState) -> bool {
    &&& a.active@ == b.active@
    &&& a.delivered@ == b.delivered@
    &&& a.parent == b.parent
    &&& a.session_directory == b.session_directory
    &&& a.session_title == b.session_title
    &&& a.first_prompt == b.first_prompt
    &&& a.task == b.task
    &&& a.agent_type == b.agent_type
    &&& a.tokens == b.tokens
    &&& a.activated_at@ == b.activated_at@
    &&& a.last_seen == b.last_seen
}

/// The same optional text again.
pub fn copy_text(t: &Option<String>) -> (copy: Option<String>)
    ensures
        copy == *t,
{
    match t {
        Some(s) => Some(s.clone()),
        None => None,
    }
}

impl ContextState {
    /// The record of deliveries is ordered by memory id, so each memory is
    /// recorded once.
    pub open spec fn well_formed(&self) -> bool {
        &&& strictly_sorted(delivered_ids(self.delivered@))
        &&& unique_activations(self.activated_at@)
        &&& strictly_sorted(crate::catalog::string_views(self.active@))
    }

    /// The same context again: every field holds what this one holds.
    pub fn duplicate(&self) -> (copy: ContextState)
        ensures
            same_state(copy, *self),
    {
        let mut active: Vec<String> = Vec::new();
        append_strings(&mut active, &self.active);
        assert(active@ =~= self.active@);
        let mut delivered: Vec<Delivered> = Vec::new();
        let mut i: usize = 0;
        while i < self.delivered.len()
            invariant
                i <= self.delivered@.len(),
                delivered@ == self.delivered@.take(i as int),
            decreases self.delivered.len() - i,
        {
            let d = &self.delivered[i];
            delivered.push(Delivered { id: d.id.clone(), shown: d.shown.duplicate() });
            assert(delivered@ =~= self.delivered@.take(i + 1));
            i += 1;
        }
        assert(delivered@ =~= self.delivered@);
        let mut activated_at: Vec<Activation> = Vec::new();
        let mut k: usize = 0;
        while k < self.activated_at.len()
            invariant
                k <= self.activated_at@.len(),
                activated_at@ == self.activated_at@.take(k as int),
            decreases self.activated_at.len() - k,
        {
            let a = &self.activated_at[k];
            activated_at.push(Activation { scope: a.scope.clone(), tokens: a.tokens });
            assert(activated_at@ =~= self.activated_at@.take(k + 1));
            k += 1;
        }
        assert(activated_at@ =~= self.activated_at@);
        ContextState {
            active,
            delivered,
            parent: match &self.parent {
                Some(p) => Some(p.duplicate()),
                None => None,
            },
            session_directory: copy_text(&self.session_directory),
            session_title: copy_text(&self.session_title),
            first_prompt: copy_text(&self.first_prompt),
            task: copy_text(&self.task),
            agent_type: copy_text(&self.agent_type),
            tokens: self.tokens,
            activated_at,
            last_seen: self.last_seen,
        }
    }

    /// A context that has been told nothing yet.
    pub fn fresh(active: Vec<String>, parent: Option<ContextKey>, now: i64) -> (state: ContextState)
        requires
            strictly_sorted(crate::catalog::string_views(active@)),
        ensures
            state.well_formed(),
            state.active == active,
            state.delivered@.len() == 0,
            state.parent == parent,
            state.session_directory is None,
            state.session_title is None,
            state.first_prompt is None,
            state.task is None,
            state.agent_type is None,
            state.tokens is None,
            state.activated_at@.len() == 0,
            state.last_seen == now,
    {
        ContextState {
            active,
            delivered: Vec::new(),
            parent,
            session_directory: None,
            session_title: None,
            first_prompt: None,
            task: None,
            agent_type: None,
            tokens: None,
            activated_at: Vec::new(),
            last_seen: now,
        }
    }

    /// Record that this context holds `memory` at its current version, in the
    /// form its kind is delivered in, counted from `tokens`.
    ///
    /// This is the one place a [`Shown`] is made, so the version and the form
    /// always come from the catalog entry.
    pub fn note_shown(&mut self, memory: &MemoryEntry, tokens: Option<u64>)
        requires
            old(self).well_formed(),
        ensures
            final(self).well_formed(),
            delivered_map(final(self).delivered@) == delivered_map(old(self).delivered@).insert(
                memory.id@,
                shown_for(*memory, tokens),
            ),
            final(self).active == old(self).active,
            final(self).tokens == old(self).tokens,
            final(self).activated_at == old(self).activated_at,
            unchanged_identity(*old(self), *final(self)),
    {
        let entry = Delivered {
            id: memory.id.clone(),
            shown: Shown {
                version: memory.version.clone(),
                form: Form::for_kind(memory.kind),
                tokens,
            },
        };
        upsert_delivered(&mut self.delivered, entry);
    }

    /// Record that an event of this context reported `tokens` as its context
    /// size, and take that size as the baseline of everything here that has
    /// none: a delivery recorded where nothing reported a size, and a scope
    /// with a `forget` rule that has no activation of its own. A count in
    /// tokens starts at the first event of this context that carried a size.
    pub fn note_tokens(&mut self, tokens: u64, catalog: &Catalog)
        requires
            old(self).well_formed(),
        ensures
            final(self).well_formed(),
            final(self).tokens == Some(tokens),
            final(self).active == old(self).active,
            unchanged_identity(*old(self), *final(self)),
            final(self).delivered@ == tokens_filled(old(self).delivered@, tokens),
            delivered_ids(final(self).delivered@) == delivered_ids(old(self).delivered@),
            forall|i: int|
                0 <= i < final(self).delivered@.len() ==> {
                    let before = old(self).delivered@[i].shown;
                    let after = #[trigger] final(self).delivered@[i].shown;
                    after.version == before.version && after.form == before.form && after.tokens
                        == (match before.tokens {
                        Some(t) => Some(t),
                        None => Some(tokens),
                    })
                },
            activation_map(final(self).activated_at@) == baselined(
                activation_map(old(self).activated_at@),
                old(self).active@,
                catalog.scopes@,
                tokens,
            ),
    {
        self.tokens = Some(tokens);
        let ghost before = self.delivered@;
        let mut i: usize = 0;
        while i < self.delivered.len()
            invariant
                self.tokens == Some(tokens),
                self.active == old(self).active,
                self.activated_at == old(self).activated_at,
                unchanged_identity(*old(self), *self),
                before == old(self).delivered@,
                i <= self.delivered@.len(),
                self.delivered@.len() == before.len(),
                delivered_ids(self.delivered@) == delivered_ids(before),
                forall|j: int|
                    i <= j < self.delivered@.len() ==> #[trigger] self.delivered@[j] == before[j],
                forall|j: int|
                    0 <= j < i ==> #[trigger] self.delivered@[j] == filled(before[j], tokens),
            decreases self.delivered.len() - i,
        {
            if self.delivered[i].tokens_missing() {
                let old_entry = &self.delivered[i];
                let entry = Delivered {
                    id: old_entry.id.clone(),
                    shown: Shown {
                        version: old_entry.shown.version.clone(),
                        form: old_entry.shown.form,
                        tokens: Some(tokens),
                    },
                };
                self.delivered.set(i, entry);
                assert(delivered_ids(self.delivered@) =~= delivered_ids(before));
            }
            i += 1;
        }
        assert(self.delivered@ =~= tokens_filled(before, tokens));
        let ghost start = activation_map(self.activated_at@);
        let mut k: usize = 0;
        while k < self.active.len()
            invariant
                k <= self.active@.len(),
                self.active == old(self).active,
                self.delivered@ == tokens_filled(before, tokens),
                strictly_sorted(delivered_ids(self.delivered@)),
                unique_activations(self.activated_at@),
                self.tokens == Some(tokens),
                unchanged_identity(*old(self), *self),
                activation_map(self.activated_at@) == baselined(start, self.active@.take(k as int), catalog.scopes@, tokens),
            decreases self.active.len() - k,
        {
            let scope = self.active[k].clone();
            let ghost m = activation_map(self.activated_at@);
            proof {
                lemma_holds_take(self.active@, k as int);
            }
            if catalog.forget_rule(&scope).is_some() && find_activation(&self.activated_at, &scope).is_none() {
                set_activation(&mut self.activated_at, &scope, tokens);
                proof {
                    assert(scope@ == self.active@[k as int]@);
                    assert(!m.dom().contains(scope@));
                    assert(!start.dom().contains(scope@));
                    assert(activation_map(self.activated_at@) == m.insert(scope@, tokens));
                    let b = baselined(start, self.active@.take(k + 1), catalog.scopes@, tokens);
                    assert(b.dom().contains(scope@));
                    assert(b[scope@] == tokens);
                }
                assert(activation_map(self.activated_at@) =~= baselined(start, self.active@.take(k + 1), catalog.scopes@, tokens));
            } else {
                assert(activation_map(self.activated_at@) =~= baselined(start, self.active@.take(k + 1), catalog.scopes@, tokens));
            }
            k += 1;
        }
        assert(self.active@.take(self.active@.len() as int) =~= self.active@);
    }

    /// Record that `scope` was turned on in this context at `tokens` context
    /// tokens. A scope with no `forget` rule is not recorded, because nothing
    /// reads the activation of a scope that never turns itself off; `None`
    /// records nothing and leaves an earlier activation standing.
    pub fn note_activation(&mut self, scope: &String, tokens: Option<u64>, catalog: &Catalog)
        requires
            old(self).well_formed(),
        ensures
            final(self).well_formed(),
            final(self).active == old(self).active,
            final(self).delivered == old(self).delivered,
            final(self).tokens == old(self).tokens,
            unchanged_identity(*old(self), *final(self)),
            activation_map(final(self).activated_at@) == activated(
                activation_map(old(self).activated_at@),
                scope@,
                tokens,
                catalog.scopes@,
            ),
    {
        let t = match tokens {
            Some(t) => t,
            None => return,
        };
        if catalog.forget_rule(scope).is_none() {
            return;
        }
        set_activation(&mut self.activated_at, scope, t);
    }
}

/// A delivery with the baseline `tokens` given it when it had none.
pub open spec fn filled(d: Delivered, tokens: u64) -> Delivered {
    match d.shown.tokens {
        Some(_) => d,
        None => Delivered { id: d.id, shown: Shown { version: d.shown.version, form: d.shown.form, tokens: Some(tokens) } },
    }
}

/// Every delivery with the baseline `tokens` given it when it had none.
pub open spec fn tokens_filled(v: Seq<Delivered>, tokens: u64) -> Seq<Delivered> {
    v.map_values(|d: Delivered| filled(d, tokens))
}

/// The activations with every scope of `active` that has a `forget` rule and
/// no activation given one at `tokens`.
pub open spec fn baselined(m: Map<Seq<char>, u64>, active: Seq<String>, scopes: Seq<crate::catalog::ScopeEntry>, tokens: u64) -> Map<Seq<char>, u64> {
    Map::new(
        |k: Seq<char>| m.dom().contains(k) || (holds(active, k) && crate::catalog::forget_rule_of(scopes, k) is Some),
        |k: Seq<char>| if m.dom().contains(k) {
            m[k]
        } else {
            tokens
        },
    )
}

/// The activations after `scope` was turned on at `tokens`: recorded only for
/// a scope with a `forget` rule, and only when a size is known.
pub open spec fn activated(m: Map<Seq<char>, u64>, scope: Seq<char>, tokens: Option<u64>, scopes: Seq<crate::catalog::ScopeEntry>) -> Map<Seq<char>, u64> {
    match tokens {
        Some(t) => if crate::catalog::forget_rule_of(scopes, scope) is Some {
            m.insert(scope, t)
        } else {
            m
        },
        None => m,
    }
}

/// What no step of an event but its first changes: who the context is and
/// what it is called.
pub open spec fn unchanged_identity(a: ContextState, b: ContextState) -> bool {
    &&& a.parent == b.parent
    &&& a.session_directory == b.session_directory
    &&& a.session_title == b.session_title
    &&& a.first_prompt == b.first_prompt
    &&& a.task == b.task
    &&& a.agent_type == b.agent_type
    &&& a.last_seen == b.last_seen
}

/// Whether `k` is one of the first `i + 1` strings is whether it is one of the
/// first `i` or the one at `i`.
pub proof fn lemma_holds_take(v: Seq<String>, i: int)
    requires
        0 <= i < v.len(),
    ensures
        forall|k: Seq<char>| #![auto] holds(v.take(i + 1), k) == (holds(v.take(i), k) || v[i]@ == k),
{
    assert forall|k: Seq<char>| #![auto] holds(v.take(i + 1), k) == (holds(v.take(i), k) || v[i]@ == k) by {
        if holds(v.take(i + 1), k) {
            let j = choose|j: int| 0 <= j < v.take(i + 1).len() && (#[trigger] v.take(i + 1)[j])@ == k;
            if j < i {
                assert(v.take(i)[j] == v.take(i + 1)[j]);
            }
        }
        if holds(v.take(i), k) {
            let j = choose|j: int| 0 <= j < v.take(i).len() && (#[trigger] v.take(i)[j])@ == k;
            assert(v.take(i + 1)[j] == v.take(i)[j]);
        }
        if v[i]@ == k {
            assert(v.take(i + 1)[i] == v[i]);
        }
    }
}

impl Delivered {
    /// Whether this delivery has no context size to count from yet.
    pub fn tokens_missing(&self) -> (missing: bool)
        ensures
            missing == (self.shown.tokens is None),
    {
        self.shown.tokens.is_none()
    }
}

/// What is recorded for a memory shown at its current version, in the form its
/// kind gets, counted from `tokens`.
pub open spec fn shown_for(m: MemoryEntry, tokens: Option<u64>) -> Shown {
    Shown { version: m.version, form: form_for(m.kind), tokens }
}

/// Why a memory stopped being delivered.
#[derive(Clone, Copy, Debug, PartialEq, Eq, Structural)]
pub enum RetractReason {
    /// The memory is no longer in the store: its file was deleted.
    Deleted,
    /// No scope this context works in covers the memory any more.
    NoActiveScope,
}

impl RetractReason {
    pub fn as_str(self) -> (text: &'static str)
        ensures
            text@ == (match self {
                RetractReason::Deleted => "deleted"@,
                RetractReason::NoActiveScope => "no longer in an active scope"@,
            }),
    {
        match self {
            RetractReason::Deleted => "deleted",
            RetractReason::NoActiveScope => "no longer in an active scope",
        }
    }
}

/// One memory a context is to stop acting on, and why.
#[derive(Clone, Debug, PartialEq, Eq)]
pub struct Retraction {
    pub id: String,
    pub reason: RetractReason,
}

/// What a context is owed, computed against one catalog snapshot.
///
/// Each list is in memory id order, so that the rendered context does not
/// depend on the order anything was walked in.
#[derive(Clone, Debug, PartialEq, Eq)]
pub struct Needs {
    /// Due and never delivered here.
    pub new: Vec<String>,
    /// Delivered, but the store holds a different version now.
    pub changed: Vec<String>,
    /// Delivered at another version whose delivered text the new one only
    /// removed lines from. Nothing is rendered for these.
    pub shrunk: Vec<String>,
    /// Delivered so long ago in context that it is out of the model's reach.
    pub stale: Vec<String>,
    /// Delivered, and no longer to be acted on.
    pub retracted: Vec<Retraction>,
}

/// The memories a [`Needs`] delivers, in the order they are rendered: new,
/// then changed, then stale.
pub open spec fn needs_delivered(n: Needs) -> Seq<Seq<char>> {
    crate::catalog::string_views(n.new@) + crate::catalog::string_views(n.changed@)
        + crate::catalog::string_views(n.stale@)
}

/// The ids a [`Needs`] retracts.
pub open spec fn retracted_ids(n: Needs) -> Seq<Seq<char>> {
    n.retracted@.map_values(|r: Retraction| r.id@)
}

/// Whether the memory with this id is a critical one in the catalog.
pub open spec fn is_critical_in(catalog: &Catalog, id: Seq<char>) -> bool {
    match catalog.memory_spec(id) {
        Some(m) => m.kind == MemoryKind::Critical,
        None => false,
    }
}

impl Needs {
    /// Nothing owed.
    pub fn none() -> (needs: Needs)
        ensures
            needs.new@.len() == 0,
            needs.changed@.len() == 0,
            needs.shrunk@.len() == 0,
            needs.stale@.len() == 0,
            needs.retracted@.len() == 0,
    {
        Needs {
            new: Vec::new(),
            changed: Vec::new(),
            shrunk: Vec::new(),
            stale: Vec::new(),
            retracted: Vec::new(),
        }
    }

    /// Whether nothing at all is owed. A memory that only shrank is not owed:
    /// it puts no text in the answer.
    pub fn is_empty(&self) -> (empty: bool)
        ensures
            empty == (self.new@.len() == 0 && self.changed@.len() == 0 && self.stale@.len() == 0
                && self.retracted@.len() == 0),
    {
        self.new.len() == 0 && self.changed.len() == 0 && self.stale.len() == 0
            && self.retracted.len() == 0
    }

    /// The memories to deliver, in the order they are rendered.
    pub fn delivered_ids(&self) -> (ids: Vec<String>)
        ensures
            crate::catalog::string_views(ids@) == needs_delivered(*self),
    {
        let mut ids: Vec<String> = Vec::new();
        append_strings(&mut ids, &self.new);
        append_strings(&mut ids, &self.changed);
        append_strings(&mut ids, &self.stale);
        assert(crate::catalog::string_views(ids@) =~= needs_delivered(*self));
        ids
    }

    /// Whether a critical memory is new or changed here, which is the
    /// condition that interrupts a tool call.
    pub fn has_critical_arrival(&self, catalog: &Catalog) -> (arrives: bool)
        requires
            catalog.well_formed(),
        ensures
            arrives == ((exists|i: int|
                0 <= i < self.new@.len() && is_critical_in(catalog, #[trigger] self.new@[i]@))
                || (exists|i: int|
                0 <= i < self.changed@.len() && is_critical_in(
                    catalog,
                    #[trigger] self.changed@[i]@,
                ))),
    {
        let a = any_critical(&self.new, catalog);
        let b = any_critical(&self.changed, catalog);
        a || b
    }
}

/// Appends clones of every string of `more` to `out`.
pub fn append_strings(out: &mut Vec<String>, more: &Vec<String>)
    ensures
        crate::catalog::string_views(final(out)@) == crate::catalog::string_views(old(out)@)
            + crate::catalog::string_views(more@),
        final(out)@ == old(out)@ + more@,
{
    let mut i: usize = 0;
    while i < more.len()
        invariant
            i <= more@.len(),
            out@ == old(out)@ + more@.take(i as int),
        decreases more.len() - i,
    {
        out.push(more[i].clone());
        assert(out@ =~= old(out)@ + more@.take(i + 1));
        i += 1;
    }
    assert(more@.take(more.len() as int) =~= more@);
    assert(crate::catalog::string_views(out@) =~= crate::catalog::string_views(old(out)@)
        + crate::catalog::string_views(more@));
}

/// Whether any id of `ids` is a critical memory of the catalog.
fn any_critical(ids: &Vec<String>, catalog: &Catalog) -> (found: bool)
    requires
        catalog.well_formed(),
    ensures
        found == exists|i: int| 0 <= i < ids@.len() && is_critical_in(catalog, #[trigger] ids@[i]@),
{
    let mut i: usize = 0;
    while i < ids.len()
        invariant
            catalog.well_formed(),
            i <= ids@.len(),
            forall|j: int| 0 <= j < i ==> !is_critical_in(catalog, #[trigger] ids@[j]@),
        decreases ids.len() - i,
    {
        if let Some(p) = catalog.find(&ids[i]) {
            proof {
                lemma_memory_at(catalog, p as int);
            }
            if catalog.memories[p].kind == MemoryKind::Critical {
                return true;
            }
        }
        i += 1;
    }
    false
}

/// The memory at position `i` is the one the catalog holds for its id.
pub proof fn lemma_memory_at(catalog: &Catalog, i: int)
    requires
        catalog.well_formed(),
        0 <= i < catalog.memories@.len(),
    ensures
        catalog.has_memory(catalog.memories@[i].id@),
        catalog.memory_spec(catalog.memories@[i].id@) == Some(catalog.memories@[i]),
{
    let id = catalog.memories@[i].id@;
    assert(catalog.has_memory(id));
    let j = catalog.position_of(id);
    crate::catalog::lemma_unique_position(catalog, i, j);
}


/// One memory a context holds at a version the store no longer has: the
/// version the context holds, which is where its earlier text is read from,
/// and the kind the store gives the memory now.
#[derive(Clone, Debug)]
pub struct Outdated {
    pub id: String,
    pub version: String,
    pub kind: MemoryKind,
}

/// The plain values of an outdated entry.
pub open spec fn outdated_view(o: Outdated) -> (Seq<char>, Seq<char>, MemoryKind) {
    (o.id@, o.version@, o.kind)
}

/// Every delivery of `delivered` whose memory the store holds at another
/// version, in the order of the deliveries.
pub open spec fn outdated_of(catalog: Catalog, delivered: Seq<Delivered>) -> Seq<(Seq<char>, Seq<char>, MemoryKind)>
    decreases delivered.len(),
{
    if delivered.len() == 0 {
        Seq::empty()
    } else {
        let rest = outdated_of(catalog, delivered.drop_last());
        let d = delivered.last();
        match catalog.memory_spec(d.id@) {
            Some(m) => if m.version@ != d.shown.version@ {
                rest.push((d.id@, d.shown.version@, m.kind))
            } else {
                rest
            },
            None => rest,
        }
    }
}

/// Every memory `context` holds at a version the catalog no longer has, with
/// the version it holds and the kind the catalog gives it now. A memory the
/// store no longer holds at all is not one: it is retracted, not changed.
pub fn outdated_versions(context: &ContextState, catalog: &Catalog) -> (out: Vec<Outdated>)
    requires
        catalog.well_formed(),
    ensures
        out@.map_values(|o: Outdated| outdated_view(o)) == outdated_of(*catalog, context.delivered@),
{
    let mut out: Vec<Outdated> = Vec::new();
    let mut i: usize = 0;
    while i < context.delivered.len()
        invariant
            catalog.well_formed(),
            i <= context.delivered@.len(),
            out@.map_values(|o: Outdated| outdated_view(o)) == outdated_of(*catalog, context.delivered@.take(i as int)),
        decreases context.delivered.len() - i,
    {
        let d = &context.delivered[i];
        proof {
            assert(context.delivered@.take(i + 1).drop_last() =~= context.delivered@.take(i as int));
            assert(context.delivered@.take(i + 1).last() == context.delivered@[i as int]);
        }
        match catalog.find(&d.id) {
            Some(k) => {
                proof {
                    lemma_memory_at(catalog, k as int);
                }
                let m = &catalog.memories[k];
                if m.version != d.shown.version {
                    let ghost before = out@;
                    out.push(Outdated { id: d.id.clone(), version: d.shown.version.clone(), kind: m.kind });
                    proof {
                        assert(out@.map_values(|o: Outdated| outdated_view(o)) =~= before.map_values(
                            |o: Outdated| outdated_view(o),
                        ).push((d.id@, d.shown.version@, m.kind)));
                    }
                }
            },
            None => {},
        }
        i += 1;
    }
    proof {
        assert(context.delivered@.take(context.delivered@.len() as int) =~= context.delivered@);
    }
    out
}

/// What the store gave back for one outdated version: the kind that version
/// of the memory had, and the text it delivered.
#[derive(Clone, Debug)]
pub struct ReadVersion {
    pub kind: MemoryKind,
    pub text: String,
}

/// The earlier texts kept from what the store gave back for each outdated
/// version. A version the store no longer has gives no text, and neither does
/// one whose kind differs from the memory's kind now: it was delivered in
/// another form, so its lines are of another thing.
pub open spec fn kept_texts(outdated: Seq<Outdated>, read: Seq<Option<ReadVersion>>) -> Seq<(Seq<char>, Seq<char>)>
    decreases outdated.len(),
{
    if outdated.len() == 0 || read.len() != outdated.len() {
        Seq::empty()
    } else {
        let rest = kept_texts(outdated.drop_last(), read.drop_last());
        match read.last() {
            Some(r) => if r.kind == outdated.last().kind {
                rest.push((outdated.last().id@, r.text@))
            } else {
                rest
            },
            None => rest,
        }
    }
}

/// The plain values of an earlier text.
pub open spec fn previous_view(p: PreviousText) -> (Seq<char>, Seq<char>) {
    (p.id@, p.text@)
}

/// The earlier text of each outdated memory, from what the store gave back for
/// the version the context holds: `read[i]` is what it gave for `outdated[i]`.
pub fn previous_texts(outdated: &Vec<Outdated>, read: &Vec<Option<ReadVersion>>) -> (texts: Vec<PreviousText>)
    requires
        read@.len() == outdated@.len(),
    ensures
        texts@.map_values(|p: PreviousText| previous_view(p)) == kept_texts(outdated@, read@),
{
    let mut texts: Vec<PreviousText> = Vec::new();
    let mut i: usize = 0;
    while i < outdated.len()
        invariant
            read@.len() == outdated@.len(),
            i <= outdated@.len(),
            texts@.map_values(|p: PreviousText| previous_view(p)) == kept_texts(
                outdated@.take(i as int),
                read@.take(i as int),
            ),
        decreases outdated.len() - i,
    {
        proof {
            assert(outdated@.take(i + 1).drop_last() =~= outdated@.take(i as int));
            assert(read@.take(i + 1).drop_last() =~= read@.take(i as int));
            assert(outdated@.take(i + 1).last() == outdated@[i as int]);
            assert(read@.take(i + 1).last() == read@[i as int]);
        }
        match &read[i] {
            Some(r) => {
                if r.kind == outdated[i].kind {
                    let ghost before = texts@;
                    texts.push(PreviousText { id: outdated[i].id.clone(), text: r.text.clone() });
                    proof {
                        assert(texts@.map_values(|p: PreviousText| previous_view(p)) =~= before.map_values(
                            |p: PreviousText| previous_view(p),
                        ).push((outdated@[i as int].id@, r.text@)));
                    }
                }
            },
            None => {},
        }
        i += 1;
    }
    proof {
        assert(outdated@.take(outdated@.len() as int) =~= outdated@);
        assert(read@.take(read@.len() as int) =~= read@);
    }
    texts
}

/// Whether every text of `sub` appears in `sup`, in order: each is looked
/// for after the one before it.
pub open spec fn in_order(sub: Seq<Seq<char>>, sup: Seq<Seq<char>>) -> bool
    decreases sup.len(),
{
    if sub.len() == 0 {
        true
    } else if sup.len() == 0 {
        false
    } else if sub[0] == sup[0] {
        in_order(sub.skip(1), sup.skip(1))
    } else {
        in_order(sub, sup.skip(1))
    }
}

/// Whether `new` is `old` with lines taken out and nothing put in: every line
/// of `new` appears in `old` in order, and the two differ as lines.
pub open spec fn shrinks_spec(old: Seq<char>, new: Seq<char>) -> bool {
    lines(old) != lines(new) && in_order(lines(new), lines(old))
}

/// Whether `new` is `old` with lines taken out and nothing put in.
///
/// Lines are compared exactly, because this is asked of the text the model
/// was actually given, in which a reworded line is new text. A trailing
/// newline is not a line, so two texts that differ only in one are the same
/// text here and nothing shrank.
pub fn shrinks(old: &str, new: &str) -> (shrunk: bool)
    ensures
        shrunk == shrinks_spec(old@, new@),
{
    let old_lines = crate::text::lines_of(&chars_of(old));
    let new_lines = crate::text::lines_of(&chars_of(new));
    if crate::text::same_texts(&old_lines, &new_lines) {
        return false;
    }
    let ghost sub = views(new_lines@);
    let ghost sup = views(old_lines@);
    let mut i: usize = 0;
    let mut j: usize = 0;
    assert(sub.skip(0) =~= sub);
    assert(sup.skip(0) =~= sup);
    while i < new_lines.len() && j < old_lines.len()
        invariant
            sub == views(new_lines@),
            sup == views(old_lines@),
            i <= sub.len(),
            j <= sup.len(),
            in_order(sub, sup) == in_order(sub.skip(i as int), sup.skip(j as int)),
        decreases old_lines.len() - j,
    {
        assert(sub.skip(i as int)[0] == new_lines@[i as int]@);
        assert(sup.skip(j as int)[0] == old_lines@[j as int]@);
        assert(sup.skip(j as int).skip(1) =~= sup.skip(j + 1));
        if same_chars(&new_lines[i], &old_lines[j]) {
            assert(sub.skip(i as int).skip(1) =~= sub.skip(i + 1));
            i += 1;
        }
        j += 1;
    }
    i == new_lines.len()
}

/// The text a context was given for a memory whose version has moved since,
/// by memory id.
#[derive(Clone, Debug)]
pub struct PreviousText {
    pub id: String,
    pub text: String,
}

/// The text recorded first for `id`.
pub open spec fn previous_text(v: Seq<PreviousText>, id: Seq<char>) -> Option<Seq<char>>
    decreases v.len(),
{
    if v.len() == 0 {
        None
    } else if v[0].id@ == id {
        Some(v[0].text@)
    } else {
        previous_text(v.skip(1), id)
    }
}

/// Where the text recorded first for `id` is.
fn find_previous(v: &Vec<PreviousText>, id: &String) -> (found: Option<usize>)
    ensures
        match found {
            Some(i) => i < v@.len() && previous_text(v@, id@) == Some(v@[i as int].text@),
            None => previous_text(v@, id@) is None,
        },
{
    let mut i: usize = 0;
    assert(v@.skip(0) =~= v@);
    while i < v.len()
        invariant
            i <= v@.len(),
            previous_text(v@, id@) == previous_text(v@.skip(i as int), id@),
        decreases v.len() - i,
    {
        assert(v@.skip(i as int)[0] == v@[i as int]);
        if v[i].id == *id {
            return Some(i);
        }
        assert(v@.skip(i as int).skip(1) =~= v@.skip(i + 1));
        i += 1;
    }
    None
}

/// What a context is owed for one memory.
#[derive(Clone, Copy, Debug, PartialEq, Eq, Structural)]
pub enum Owed {
    New,
    Changed,
    Shrunk,
    Stale,
    Nothing,
}

/// Whether a memory of this kind is delivered at all under the store's
/// settings: a rule always is, a reference only while the index is on.
pub open spec fn delivers(catalog: &Catalog, m: MemoryEntry) -> bool {
    m.kind == MemoryKind::Critical || catalog.settings.deliver_knowledge_index
}

/// Whether a delivery counted from `delivered_at` is out of reach at `now`,
/// under the store's `reminder_tokens`. Without all three nothing is stale.
pub open spec fn is_stale(reminder: Option<u64>, delivered_at: Option<u64>, now: Option<u64>) -> bool {
    match (reminder, delivered_at, now) {
        (Some(r), Some(d), Some(n)) => (if n >= d {
            n - d
        } else {
            0
        }) >= r,
        _ => false,
    }
}

/// What a context in `state` is owed for the catalog memory `m`.
pub open spec fn owed(
    catalog: &Catalog,
    state: &ContextState,
    tokens_now: Option<u64>,
    previous: Seq<PreviousText>,
    m: MemoryEntry,
) -> Owed {
    if !due_in(m, state.active@) || !delivers(catalog, m) {
        Owed::Nothing
    } else {
        match shown_of(state.delivered@, m.id@) {
            None => Owed::New,
            Some(shown) => if shown.version@ != m.version@ {
                match previous_text(previous, m.id@) {
                    Some(old) => if shrinks_spec(old, delivered_text(m)) {
                        Owed::Shrunk
                    } else {
                        Owed::Changed
                    },
                    None => Owed::Changed,
                }
            } else if is_stale(catalog.settings.reminder_tokens, shown.tokens, tokens_now) {
                Owed::Stale
            } else {
                Owed::Nothing
            },
        }
    }
}

/// The ids of the memories of `mems` owed as `what`, in order.
pub open spec fn owed_ids(
    catalog: &Catalog,
    state: &ContextState,
    tokens_now: Option<u64>,
    previous: Seq<PreviousText>,
    mems: Seq<MemoryEntry>,
    what: Owed,
) -> Seq<Seq<char>>
    decreases mems.len(),
{
    if mems.len() == 0 {
        Seq::empty()
    } else {
        let before = owed_ids(catalog, state, tokens_now, previous, mems.drop_last(), what);
        if owed(catalog, state, tokens_now, previous, mems.last()) == what {
            before.push(mems.last().id@)
        } else {
            before
        }
    }
}

/// Why the delivery of `id` is to be withdrawn, or `None` when it is not:
/// it is withdrawn when no due memory of the catalog has its id.
pub open spec fn retraction_of(catalog: &Catalog, active: Seq<String>, id: Seq<char>) -> Option<RetractReason> {
    match catalog.memory_spec(id) {
        None => Some(RetractReason::Deleted),
        Some(m) => if due_in(m, active) {
            None
        } else {
            Some(RetractReason::NoActiveScope)
        },
    }
}

/// The withdrawals owed for the deliveries `v`, in order.
pub open spec fn retractions(catalog: &Catalog, active: Seq<String>, v: Seq<Delivered>) -> Seq<(Seq<char>, RetractReason)>
    decreases v.len(),
{
    if v.len() == 0 {
        Seq::empty()
    } else {
        let before = retractions(catalog, active, v.drop_last());
        match retraction_of(catalog, active, v.last().id@) {
            Some(reason) => before.push((v.last().id@, reason)),
            None => before,
        }
    }
}

/// The withdrawals of a [`Needs`] as pairs.
pub open spec fn retraction_pairs(n: Needs) -> Seq<(Seq<char>, RetractReason)> {
    n.retracted@.map_values(|r: Retraction| (r.id@, r.reason))
}

/// What a context is owed given the store, its state and its context size.
///
/// `previous` is the text the context was given for a memory whose version
/// has moved since; a memory it has no text for is delivered whole.
pub fn compute_needs(
    catalog: &Catalog,
    state: &ContextState,
    tokens_now: Option<u64>,
    previous: &Vec<PreviousText>,
) -> (needs: Needs)
    requires
        catalog.well_formed(),
        state.well_formed(),
    ensures
        crate::catalog::string_views(needs.new@) == owed_ids(catalog, state, tokens_now, previous@, catalog.memories@, Owed::New),
        crate::catalog::string_views(needs.changed@) == owed_ids(catalog, state, tokens_now, previous@, catalog.memories@, Owed::Changed),
        crate::catalog::string_views(needs.shrunk@) == owed_ids(catalog, state, tokens_now, previous@, catalog.memories@, Owed::Shrunk),
        crate::catalog::string_views(needs.stale@) == owed_ids(catalog, state, tokens_now, previous@, catalog.memories@, Owed::Stale),
        retraction_pairs(needs) == retractions(catalog, state.active@, state.delivered@),
{
    let mut needs = Needs::none();
    let mems = &catalog.memories;
    let mut i: usize = 0;
    while i < mems.len()
        invariant
            catalog.well_formed(),
            state.well_formed(),
            mems == &catalog.memories,
            i <= mems@.len(),
            crate::catalog::string_views(needs.new@) == owed_ids(catalog, state, tokens_now, previous@, mems@.take(i as int), Owed::New),
            crate::catalog::string_views(needs.changed@) == owed_ids(catalog, state, tokens_now, previous@, mems@.take(i as int), Owed::Changed),
            crate::catalog::string_views(needs.shrunk@) == owed_ids(catalog, state, tokens_now, previous@, mems@.take(i as int), Owed::Shrunk),
            crate::catalog::string_views(needs.stale@) == owed_ids(catalog, state, tokens_now, previous@, mems@.take(i as int), Owed::Stale),
            needs.retracted@.len() == 0,
        decreases mems.len() - i,
    {
        let m = &mems[i];
        let ghost took = mems@.take(i + 1);
        assert(took.drop_last() =~= mems@.take(i as int));
        assert(took.last() == *m);
        let what = owed_one(catalog, state, tokens_now, previous, m);
        match what {
            Owed::New => needs.new.push(m.id.clone()),
            Owed::Changed => needs.changed.push(m.id.clone()),
            Owed::Shrunk => needs.shrunk.push(m.id.clone()),
            Owed::Stale => needs.stale.push(m.id.clone()),
            Owed::Nothing => {},
        }
        assert(crate::catalog::string_views(needs.new@) =~= owed_ids(catalog, state, tokens_now, previous@, took, Owed::New));
        assert(crate::catalog::string_views(needs.changed@) =~= owed_ids(catalog, state, tokens_now, previous@, took, Owed::Changed));
        assert(crate::catalog::string_views(needs.shrunk@) =~= owed_ids(catalog, state, tokens_now, previous@, took, Owed::Shrunk));
        assert(crate::catalog::string_views(needs.stale@) =~= owed_ids(catalog, state, tokens_now, previous@, took, Owed::Stale));
        i += 1;
    }
    assert(mems@.take(mems.len() as int) =~= mems@);
    let held = &state.delivered;
    let mut k: usize = 0;
    while k < held.len()
        invariant
            catalog.well_formed(),
            held == &state.delivered,
            k <= held@.len(),
            crate::catalog::string_views(needs.new@) == owed_ids(catalog, state, tokens_now, previous@, catalog.memories@, Owed::New),
            crate::catalog::string_views(needs.changed@) == owed_ids(catalog, state, tokens_now, previous@, catalog.memories@, Owed::Changed),
            crate::catalog::string_views(needs.shrunk@) == owed_ids(catalog, state, tokens_now, previous@, catalog.memories@, Owed::Shrunk),
            crate::catalog::string_views(needs.stale@) == owed_ids(catalog, state, tokens_now, previous@, catalog.memories@, Owed::Stale),
            retraction_pairs(needs) == retractions(catalog, state.active@, held@.take(k as int)),
        decreases held.len() - k,
    {
        let d = &held[k];
        let ghost took = held@.take(k + 1);
        assert(took.drop_last() =~= held@.take(k as int));
        assert(took.last() == *d);
        match catalog.find(&d.id) {
            None => {
                needs.retracted.push(Retraction { id: d.id.clone(), reason: RetractReason::Deleted });
            },
            Some(p) => {
                proof {
                    lemma_memory_at(catalog, p as int);
                }
                if !is_due(&catalog.memories[p], &state.active) {
                    needs.retracted.push(
                        Retraction { id: d.id.clone(), reason: RetractReason::NoActiveScope },
                    );
                }
            },
        }
        assert(retraction_pairs(needs) =~= retractions(catalog, state.active@, took));
        k += 1;
    }
    assert(held@.take(held.len() as int) =~= held@);
    needs
}

/// What a context is owed for one memory.
fn owed_one(
    catalog: &Catalog,
    state: &ContextState,
    tokens_now: Option<u64>,
    previous: &Vec<PreviousText>,
    m: &MemoryEntry,
) -> (what: Owed)
    requires
        state.well_formed(),
    ensures
        what == owed(catalog, state, tokens_now, previous@, *m),
{
    if !is_due(m, &state.active) {
        return Owed::Nothing;
    }
    let delivers = m.kind == MemoryKind::Critical || catalog.settings.deliver_knowledge_index;
    if !delivers {
        return Owed::Nothing;
    }
    match find_delivered(&state.delivered, &m.id) {
        None => {
            assert(shown_of(state.delivered@, m.id@) is None);
            Owed::New
        },
        Some(p) => {
            proof {
                lemma_shown_at(state.delivered@, p as int);
            }
            let shown = &state.delivered[p].shown;
            if !(shown.version == m.version) {
                match find_previous(previous, &m.id) {
                    Some(q) => {
                        let text = match m.kind {
                            MemoryKind::Critical => m.body.as_str(),
                            MemoryKind::Knowledge => m.description.as_str(),
                        };
                        if shrinks(previous[q].text.as_str(), text) {
                            Owed::Shrunk
                        } else {
                            Owed::Changed
                        }
                    },
                    None => Owed::Changed,
                }
            } else {
                let stale = match (catalog.settings.reminder_tokens, shown.tokens, tokens_now) {
                    (Some(r), Some(d), Some(n)) => {
                        let grown = if n >= d {
                            n - d
                        } else {
                            0
                        };
                        grown >= r
                    },
                    _ => false,
                };
                if stale {
                    Owed::Stale
                } else {
                    Owed::Nothing
                }
            }
        },
    }
}


/// `map` with each of `ids` the catalog holds recorded as shown now, at the
/// catalog's version and in the form its kind gets, counted from `tokens`.
pub open spec fn recorded(
    map: Map<Seq<char>, Shown>,
    ids: Seq<Seq<char>>,
    catalog: &Catalog,
    tokens: Option<u64>,
) -> Map<Seq<char>, Shown>
    decreases ids.len(),
{
    if ids.len() == 0 {
        map
    } else {
        let before = recorded(map, ids.drop_last(), catalog, tokens);
        match catalog.memory_spec(ids.last()) {
            Some(m) => before.insert(ids.last(), shown_for(m, tokens)),
            None => before,
        }
    }
}

/// `map` with each of `ids` forgotten.
pub open spec fn withdrawn(map: Map<Seq<char>, Shown>, ids: Seq<Seq<char>>) -> Map<Seq<char>, Shown>
    decreases ids.len(),
{
    if ids.len() == 0 {
        map
    } else {
        withdrawn(map, ids.drop_last()).remove(ids.last())
    }
}

/// Record that `needs` was delivered: what was sent, and what only shrank, is
/// now held at the store's version and this context size, and what was
/// retracted is forgotten.
pub fn record_delivery(
    state: &mut ContextState,
    needs: &Needs,
    catalog: &Catalog,
    tokens_now: Option<u64>,
)
    requires
        old(state).well_formed(),
        catalog.well_formed(),
    ensures
        final(state).well_formed(),
        final(state).active == old(state).active,
        final(state).tokens == old(state).tokens,
        final(state).activated_at == old(state).activated_at,
        unchanged_identity(*old(state), *final(state)),
        delivered_map(final(state).delivered@) == withdrawn(
            recorded(
                delivered_map(old(state).delivered@),
                needs_delivered(*needs) + crate::catalog::string_views(needs.shrunk@),
                catalog,
                tokens_now,
            ),
            retracted_ids(*needs),
        ),
{
    let mut ids = needs.delivered_ids();
    append_strings(&mut ids, &needs.shrunk);
    let ghost all = crate::catalog::string_views(ids@);
    let ghost start = delivered_map(state.delivered@);
    let mut i: usize = 0;
    while i < ids.len()
        invariant
            catalog.well_formed(),
            state.well_formed(),
            state.active == old(state).active,
            state.tokens == old(state).tokens,
            state.activated_at == old(state).activated_at,
            unchanged_identity(*old(state), *state),
            all == crate::catalog::string_views(ids@),
            i <= ids@.len(),
            delivered_map(state.delivered@) == recorded(start, all.take(i as int), catalog, tokens_now),
        decreases ids.len() - i,
    {
        assert(all.take(i + 1).drop_last() =~= all.take(i as int));
        assert(all.take(i + 1).last() == ids@[i as int]@);
        match catalog.find(&ids[i]) {
            Some(p) => {
                proof {
                    lemma_memory_at(catalog, p as int);
                }
                state.note_shown(&catalog.memories[p], tokens_now);
            },
            None => {},
        }
        i += 1;
    }
    assert(all.take(ids.len() as int) =~= all);
    let ghost middle = delivered_map(state.delivered@);
    let ghost gone = retracted_ids(*needs);
    let mut k: usize = 0;
    while k < needs.retracted.len()
        invariant
            state.well_formed(),
            state.active == old(state).active,
            state.tokens == old(state).tokens,
            state.activated_at == old(state).activated_at,
            unchanged_identity(*old(state), *state),
            gone == retracted_ids(*needs),
            k <= needs.retracted@.len(),
            delivered_map(state.delivered@) == withdrawn(middle, gone.take(k as int)),
        decreases needs.retracted.len() - k,
    {
        assert(gone.take(k + 1).drop_last() =~= gone.take(k as int));
        assert(gone.take(k + 1).last() == needs.retracted@[k as int].id@);
        remove_delivered(&mut state.delivered, &needs.retracted[k].id);
        k += 1;
    }
    assert(gone.take(needs.retracted.len() as int) =~= gone);
}


/// What the deliveries record says of `id`.
proof fn lemma_shown_is_map(v: Seq<Delivered>, id: Seq<char>)
    ensures
        shown_of(v, id) == (if delivered_map(v).dom().contains(id) {
            Some(delivered_map(v)[id])
        } else {
            None
        }),
{
}

/// Recording `ids` as shown: an id the catalog holds and `ids` names is held
/// at the catalog's version, anything else as before.
proof fn lemma_recorded_at(map: Map<Seq<char>, Shown>, ids: Seq<Seq<char>>, catalog: &Catalog, tokens: Option<u64>, x: Seq<char>)
    ensures
        recorded(map, ids, catalog, tokens).dom().contains(x) == (map.dom().contains(x) || (ids.contains(x)
            && catalog.has_memory(x))),
        ids.contains(x) && catalog.has_memory(x) ==> recorded(map, ids, catalog, tokens)[x] == shown_for(
            catalog.memory_spec(x)->0,
            tokens,
        ),
        !(ids.contains(x) && catalog.has_memory(x)) && map.dom().contains(x) ==> recorded(map, ids, catalog, tokens)[x]
            == map[x],
    decreases ids.len(),
{
    if ids.len() > 0 {
        lemma_recorded_at(map, ids.drop_last(), catalog, tokens, x);
        assert(ids.contains(x) == (ids.drop_last().contains(x) || ids.last() == x)) by {
            if ids.contains(x) {
                let i = choose|i: int| 0 <= i < ids.len() && ids[i] == x;
                if i < ids.len() - 1 {
                    assert(ids.drop_last()[i] == x);
                }
            }
            if ids.drop_last().contains(x) {
                let i = choose|i: int| 0 <= i < ids.drop_last().len() && ids.drop_last()[i] == x;
                assert(ids[i] == x);
            }
        }
    }
}

/// Forgetting `gone`: an id `gone` names is no longer held, anything else is
/// held as before.
proof fn lemma_withdrawn_at(map: Map<Seq<char>, Shown>, gone: Seq<Seq<char>>, x: Seq<char>)
    ensures
        withdrawn(map, gone).dom().contains(x) == (map.dom().contains(x) && !gone.contains(x)),
        withdrawn(map, gone).dom().contains(x) ==> withdrawn(map, gone)[x] == map[x],
    decreases gone.len(),
{
    if gone.len() > 0 {
        lemma_withdrawn_at(map, gone.drop_last(), x);
        assert(gone.contains(x) == (gone.drop_last().contains(x) || gone.last() == x)) by {
            if gone.contains(x) {
                let i = choose|i: int| 0 <= i < gone.len() && gone[i] == x;
                if i < gone.len() - 1 {
                    assert(gone.drop_last()[i] == x);
                }
            }
            if gone.drop_last().contains(x) {
                let i = choose|i: int| 0 <= i < gone.drop_last().len() && gone.drop_last()[i] == x;
                assert(gone[i] == x);
            }
        }
    }
}

/// An id is owed as `what` only for a memory owed as `what`.
proof fn lemma_owed_ids_from(catalog: &Catalog, state: &ContextState, tokens: Option<u64>, previous: Seq<PreviousText>, mems: Seq<MemoryEntry>, what: Owed, x: Seq<char>)
    requires
        owed_ids(catalog, state, tokens, previous, mems, what).contains(x),
    ensures
        exists|k: int| 0 <= k < mems.len() && mems[k].id@ == x && owed(catalog, state, tokens, previous, #[trigger] mems[k]) == what,
    decreases mems.len(),
{
    let before = owed_ids(catalog, state, tokens, previous, mems.drop_last(), what);
    if before.contains(x) {
        lemma_owed_ids_from(catalog, state, tokens, previous, mems.drop_last(), what, x);
        let k = choose|k: int| 0 <= k < mems.drop_last().len() && mems.drop_last()[k].id@ == x && owed(catalog, state, tokens, previous, #[trigger] mems.drop_last()[k]) == what;
        assert(mems[k] == mems.drop_last()[k]);
    } else {
        let k = mems.len() - 1;
        assert(owed(catalog, state, tokens, previous, mems[k]) == what);
    }
}

/// A memory owed as `what` has its id among those owed as `what`.
proof fn lemma_owed_ids_has(catalog: &Catalog, state: &ContextState, tokens: Option<u64>, previous: Seq<PreviousText>, mems: Seq<MemoryEntry>, what: Owed, k: int)
    requires
        0 <= k < mems.len(),
        owed(catalog, state, tokens, previous, mems[k]) == what,
    ensures
        owed_ids(catalog, state, tokens, previous, mems, what).contains(mems[k].id@),
    decreases mems.len(),
{
    if k == mems.len() - 1 {
        let o = owed_ids(catalog, state, tokens, previous, mems, what);
        assert(o[o.len() - 1] == mems[k].id@);
    } else {
        assert(mems.drop_last()[k] == mems[k]);
        lemma_owed_ids_has(catalog, state, tokens, previous, mems.drop_last(), what, k);
        let o = owed_ids(catalog, state, tokens, previous, mems.drop_last(), what);
        let j = choose|j: int| 0 <= j < o.len() && o[j] == mems[k].id@;
        assert(owed_ids(catalog, state, tokens, previous, mems, what)[j] == o[j]);
    }
}

/// Nothing of `mems` is owed as `what` when each of them is owed nothing.
proof fn lemma_owed_ids_empty(catalog: &Catalog, state: &ContextState, tokens: Option<u64>, previous: Seq<PreviousText>, mems: Seq<MemoryEntry>, what: Owed)
    requires
        what != Owed::Nothing,
        forall|k: int| 0 <= k < mems.len() ==> owed(catalog, state, tokens, previous, #[trigger] mems[k]) == Owed::Nothing,
    ensures
        owed_ids(catalog, state, tokens, previous, mems, what).len() == 0,
    decreases mems.len(),
{
    if mems.len() > 0 {
        assert(owed(catalog, state, tokens, previous, mems[mems.len() - 1]) == Owed::Nothing);
        assert forall|k: int| 0 <= k < mems.drop_last().len() implies owed(catalog, state, tokens, previous, #[trigger] mems.drop_last()[k]) == Owed::Nothing by {
            assert(mems.drop_last()[k] == mems[k]);
        }
        lemma_owed_ids_empty(catalog, state, tokens, previous, mems.drop_last(), what);
    }
}

/// Every id withdrawn has a reason to be.
proof fn lemma_retractions_have_reasons(catalog: &Catalog, active: Seq<String>, v: Seq<Delivered>, x: Seq<char>)
    requires
        retractions(catalog, active, v).map_values(|p: (Seq<char>, RetractReason)| p.0).contains(x),
    ensures
        retraction_of(catalog, active, x) is Some,
    decreases v.len(),
{
    let before = retractions(catalog, active, v.drop_last());
    let here = retractions(catalog, active, v);
    let ids = here.map_values(|p: (Seq<char>, RetractReason)| p.0);
    let i = choose|i: int| 0 <= i < ids.len() && ids[i] == x;
    if i < before.len() {
        assert(here[i] == before[i]);
        let bids = before.map_values(|p: (Seq<char>, RetractReason)| p.0);
        assert(bids[i] == x);
        lemma_retractions_have_reasons(catalog, active, v.drop_last(), x);
    }
}

/// A delivery with a reason to be withdrawn is among the withdrawals.
proof fn lemma_retractions_cover(catalog: &Catalog, active: Seq<String>, v: Seq<Delivered>, k: int)
    requires
        0 <= k < v.len(),
        retraction_of(catalog, active, v[k].id@) is Some,
    ensures
        retractions(catalog, active, v).map_values(|p: (Seq<char>, RetractReason)| p.0).contains(v[k].id@),
    decreases v.len(),
{
    let here = retractions(catalog, active, v);
    let ids = here.map_values(|p: (Seq<char>, RetractReason)| p.0);
    if k == v.len() - 1 {
        assert(ids[ids.len() - 1] == v[k].id@);
    } else {
        assert(v.drop_last()[k] == v[k]);
        lemma_retractions_cover(catalog, active, v.drop_last(), k);
        let before = retractions(catalog, active, v.drop_last());
        let bids = before.map_values(|p: (Seq<char>, RetractReason)| p.0);
        let j = choose|j: int| 0 <= j < bids.len() && bids[j] == v[k].id@;
        assert(here[j] == before[j]);
        assert(ids[j] == v[k].id@);
    }
}

/// No withdrawals are owed when no delivery has a reason to be withdrawn.
proof fn lemma_retractions_empty(catalog: &Catalog, active: Seq<String>, v: Seq<Delivered>)
    requires
        forall|k: int| 0 <= k < v.len() ==> retraction_of(catalog, active, (#[trigger] v[k]).id@) is None,
    ensures
        retractions(catalog, active, v).len() == 0,
    decreases v.len(),
{
    if v.len() > 0 {
        assert(retraction_of(catalog, active, v[v.len() - 1].id@) is None);
        assert forall|k: int| 0 <= k < v.drop_last().len() implies retraction_of(catalog, active, (#[trigger] v.drop_last()[k]).id@) is None by {
            assert(v.drop_last()[k] == v[k]);
        }
        lemma_retractions_empty(catalog, active, v.drop_last());
    }
}

/// A context that holds nothing as delivered, which is what a session start
/// makes, is owed as new every memory due in its scopes that the store
/// delivers, and is owed nothing else.
pub proof fn lemma_fresh_context_is_owed_everything_due(
    catalog: &Catalog,
    state: &ContextState,
    tokens: Option<u64>,
    previous: Seq<PreviousText>,
    m: MemoryEntry,
)
    requires
        state.delivered@.len() == 0,
    ensures
        owed(catalog, state, tokens, previous, m) == (if due_in(m, state.active@) && delivers(catalog, m) {
            Owed::New
        } else {
            Owed::Nothing
        }),
{
    assert(!has_entry(state.delivered@, m.id@));
}

/// Withdrawing ids forgets each of them and keeps everything else.
proof fn lemma_withdrawn(map: Map<Seq<char>, Shown>, gone: Seq<Seq<char>>, x: Seq<char>)
    ensures
        gone.contains(x) ==> !withdrawn(map, gone).dom().contains(x),
        !gone.contains(x) ==> (withdrawn(map, gone).dom().contains(x) == map.dom().contains(x)
            && withdrawn(map, gone)[x] == map[x]),
    decreases gone.len(),
{
    if gone.len() > 0 {
        lemma_withdrawn(map, gone.drop_last(), x);
        if gone.contains(x) && x != gone.last() {
            let k = choose|k: int| 0 <= k < gone.len() && gone[k] == x;
            assert(gone.drop_last()[k] == x);
        }
        if !gone.contains(x) {
            assert(!gone.drop_last().contains(x)) by {
                if gone.drop_last().contains(x) {
                    let k = choose|k: int| 0 <= k < gone.drop_last().len() && gone.drop_last()[k] == x;
                    assert(gone[k] == x);
                }
            }
            assert(gone[gone.len() - 1] == gone.last());
        }
    }
}

/// Recording ids holds each of them that the store has at what the store
/// holds, and keeps everything else.
proof fn lemma_recorded(map: Map<Seq<char>, Shown>, ids: Seq<Seq<char>>, catalog: &Catalog, tokens: Option<u64>, x: Seq<char>)
    ensures
        ids.contains(x) && catalog.has_memory(x) ==> (recorded(map, ids, catalog, tokens).dom().contains(x)
            && recorded(map, ids, catalog, tokens)[x] == shown_for(catalog.memory_spec(x)->0, tokens)),
        !ids.contains(x) ==> (recorded(map, ids, catalog, tokens).dom().contains(x) == map.dom().contains(x)
            && recorded(map, ids, catalog, tokens)[x] == map[x]),
    decreases ids.len(),
{
    if ids.len() > 0 {
        lemma_recorded(map, ids.drop_last(), catalog, tokens, x);
        if ids.contains(x) && x != ids.last() {
            let k = choose|k: int| 0 <= k < ids.len() && ids[k] == x;
            assert(ids.drop_last()[k] == x);
        }
        if !ids.contains(x) {
            assert(!ids.drop_last().contains(x)) by {
                if ids.drop_last().contains(x) {
                    let k = choose|k: int| 0 <= k < ids.drop_last().len() && ids.drop_last()[k] == x;
                    assert(ids[k] == x);
                }
            }
            assert(ids[ids.len() - 1] == ids.last());
        }
    }
}

/// What recording a delivery leaves a context holding: no memory it was
/// told to forget, every memory it was sent or found only shrunk held at the
/// version the store has and at this context size, and the scopes it works
/// in as they were.
pub proof fn lemma_recorded_delivery_holds_what_was_sent(
    catalog: &Catalog,
    before: &ContextState,
    after: &ContextState,
    needs: Needs,
    tokens: Option<u64>,
)
    requires
        after.active == before.active,
        delivered_map(after.delivered@) == withdrawn(
            recorded(delivered_map(before.delivered@), needs_delivered(needs) + string_views(needs.shrunk@), catalog, tokens),
            retracted_ids(needs),
        ),
    ensures
        forall|x: Seq<char>| #[trigger] retracted_ids(needs).contains(x) ==> !delivered_map(after.delivered@).dom().contains(x),
        forall|x: Seq<char>|
            #![trigger (needs_delivered(needs) + string_views(needs.shrunk@)).contains(x)]
            (needs_delivered(needs) + string_views(needs.shrunk@)).contains(x) && catalog.has_memory(x)
                && !retracted_ids(needs).contains(x) ==> delivered_map(after.delivered@).dom().contains(x)
                && delivered_map(after.delivered@)[x] == shown_for(catalog.memory_spec(x)->0, tokens),
        after.active@ == before.active@,
{
    let ids = needs_delivered(needs) + string_views(needs.shrunk@);
    let mid = recorded(delivered_map(before.delivered@), ids, catalog, tokens);
    assert forall|x: Seq<char>| #[trigger] retracted_ids(needs).contains(x) implies !delivered_map(after.delivered@).dom().contains(x) by {
        lemma_withdrawn(mid, retracted_ids(needs), x);
    }
    assert forall|x: Seq<char>|
        #![trigger ids.contains(x)]
        ids.contains(x) && catalog.has_memory(x) && !retracted_ids(needs).contains(x) implies delivered_map(after.delivered@).dom().contains(x)
            && delivered_map(after.delivered@)[x] == shown_for(catalog.memory_spec(x)->0, tokens) by {
        lemma_withdrawn(mid, retracted_ids(needs), x);
        lemma_recorded(delivered_map(before.delivered@), ids, catalog, tokens, x);
    }
}

/// Recording what a context was owed settles it: asked again at the same
/// context size, it is owed nothing, whatever text it is said to have been
/// given before, and nothing it holds is to be withdrawn. The one exception
/// is a store whose reminder is zero tokens, under which every delivery is
/// stale the moment it is made.
pub proof fn lemma_recorded_delivery_settles(
    catalog: &Catalog,
    before: &ContextState,
    after: &ContextState,
    needs: Needs,
    tokens: Option<u64>,
    previous: Seq<PreviousText>,
    later: Seq<PreviousText>,
)
    requires
        catalog.well_formed(),
        before.well_formed(),
        after.well_formed(),
        string_views(needs.new@) == owed_ids(catalog, before, tokens, previous, catalog.memories@, Owed::New),
        string_views(needs.changed@) == owed_ids(catalog, before, tokens, previous, catalog.memories@, Owed::Changed),
        string_views(needs.shrunk@) == owed_ids(catalog, before, tokens, previous, catalog.memories@, Owed::Shrunk),
        string_views(needs.stale@) == owed_ids(catalog, before, tokens, previous, catalog.memories@, Owed::Stale),
        retraction_pairs(needs) == retractions(catalog, before.active@, before.delivered@),
        after.active == before.active,
        delivered_map(after.delivered@) == withdrawn(
            recorded(delivered_map(before.delivered@), needs_delivered(needs) + string_views(needs.shrunk@), catalog, tokens),
            retracted_ids(needs),
        ),
        tokens is None || catalog.settings.reminder_tokens != Some(0u64),
    ensures
        owed_ids(catalog, after, tokens, later, catalog.memories@, Owed::New).len() == 0,
        owed_ids(catalog, after, tokens, later, catalog.memories@, Owed::Changed).len() == 0,
        owed_ids(catalog, after, tokens, later, catalog.memories@, Owed::Shrunk).len() == 0,
        owed_ids(catalog, after, tokens, later, catalog.memories@, Owed::Stale).len() == 0,
        retractions(catalog, after.active@, after.delivered@).len() == 0,
{
    let mems = catalog.memories@;
    let m0 = delivered_map(before.delivered@);
    let ids = needs_delivered(needs) + string_views(needs.shrunk@);
    let gone = retracted_ids(needs);
    assert(gone == retractions(catalog, before.active@, before.delivered@).map_values(|p: (Seq<char>, RetractReason)| p.0)) by {
        assert(gone =~= retraction_pairs(needs).map_values(|p: (Seq<char>, RetractReason)| p.0));
    }
    let owed_new = owed_ids(catalog, before, tokens, previous, mems, Owed::New);
    let owed_changed = owed_ids(catalog, before, tokens, previous, mems, Owed::Changed);
    let owed_stale = owed_ids(catalog, before, tokens, previous, mems, Owed::Stale);
    let owed_shrunk = owed_ids(catalog, before, tokens, previous, mems, Owed::Shrunk);
    assert(ids == owed_new + owed_changed + owed_stale + owed_shrunk);
    // Where an id in `ids` comes from.
    assert forall|x: Seq<char>| #[trigger] ids.contains(x) implies exists|k: int|
        0 <= k < mems.len() && mems[k].id@ == x && owed(catalog, before, tokens, previous, #[trigger] mems[k]) != Owed::Nothing by {
        let i = choose|i: int| 0 <= i < ids.len() && ids[i] == x;
        let a = owed_new.len();
        let b = a + owed_changed.len();
        let c = b + owed_stale.len();
        if i < a {
            assert(owed_new[i] == x);
            lemma_owed_ids_from(catalog, before, tokens, previous, mems, Owed::New, x);
        } else if i < b {
            assert(owed_changed[i - a] == x);
            lemma_owed_ids_from(catalog, before, tokens, previous, mems, Owed::Changed, x);
        } else if i < c {
            assert(owed_stale[i - b] == x);
            lemma_owed_ids_from(catalog, before, tokens, previous, mems, Owed::Stale, x);
        } else {
            assert(owed_shrunk[i - c] == x);
            lemma_owed_ids_from(catalog, before, tokens, previous, mems, Owed::Shrunk, x);
        }
    }
    // Every memory of the store is owed nothing now.
    assert forall|k: int| 0 <= k < mems.len() implies owed(catalog, after, tokens, later, #[trigger] mems[k]) == Owed::Nothing by {
        let m = mems[k];
        lemma_memory_at(catalog, k);
        lemma_shown_is_map(before.delivered@, m.id@);
        lemma_shown_is_map(after.delivered@, m.id@);
        lemma_recorded_at(m0, ids, catalog, tokens, m.id@);
        lemma_withdrawn_at(recorded(m0, ids, catalog, tokens), gone, m.id@);
        if due_in(m, before.active@) && delivers(catalog, m) {
            if gone.contains(m.id@) {
                lemma_retractions_have_reasons(catalog, before.active@, before.delivered@, m.id@);
            }
            assert(!gone.contains(m.id@));
            let o = owed(catalog, before, tokens, previous, m);
            if o == Owed::Nothing {
                if ids.contains(m.id@) {
                    let j = choose|j: int| 0 <= j < mems.len() && mems[j].id@ == m.id@ && owed(catalog, before, tokens, previous, #[trigger] mems[j]) != Owed::Nothing;
                    crate::catalog::lemma_unique_position(catalog, j, k);
                }
            } else {
                if o == Owed::New {
                    lemma_owed_ids_has(catalog, before, tokens, previous, mems, Owed::New, k);
                    let j = choose|j: int| 0 <= j < owed_new.len() && owed_new[j] == m.id@;
                    assert(ids[j] == m.id@);
                } else if o == Owed::Changed {
                    lemma_owed_ids_has(catalog, before, tokens, previous, mems, Owed::Changed, k);
                    let j = choose|j: int| 0 <= j < owed_changed.len() && owed_changed[j] == m.id@;
                    assert(ids[owed_new.len() + j] == m.id@);
                } else if o == Owed::Stale {
                    lemma_owed_ids_has(catalog, before, tokens, previous, mems, Owed::Stale, k);
                    let j = choose|j: int| 0 <= j < owed_stale.len() && owed_stale[j] == m.id@;
                    assert(ids[owed_new.len() + owed_changed.len() + j] == m.id@);
                } else {
                    lemma_owed_ids_has(catalog, before, tokens, previous, mems, Owed::Shrunk, k);
                    let j = choose|j: int| 0 <= j < owed_shrunk.len() && owed_shrunk[j] == m.id@;
                    assert(ids[owed_new.len() + owed_changed.len() + owed_stale.len() + j] == m.id@);
                }
                assert(ids.contains(m.id@));
            }
        }
    }
    lemma_owed_ids_empty(catalog, after, tokens, later, mems, Owed::New);
    lemma_owed_ids_empty(catalog, after, tokens, later, mems, Owed::Changed);
    lemma_owed_ids_empty(catalog, after, tokens, later, mems, Owed::Shrunk);
    lemma_owed_ids_empty(catalog, after, tokens, later, mems, Owed::Stale);
    // Nothing held is to be withdrawn.
    assert forall|k: int| 0 <= k < after.delivered@.len() implies retraction_of(catalog, after.active@, (#[trigger] after.delivered@[k]).id@) is None by {
        let x = after.delivered@[k].id@;
        assert(has_entry(after.delivered@, x));
        assert(delivered_map(after.delivered@).dom().contains(x));
        lemma_recorded_at(m0, ids, catalog, tokens, x);
        lemma_withdrawn_at(recorded(m0, ids, catalog, tokens), gone, x);
        if ids.contains(x) && catalog.has_memory(x) {
            let j = choose|j: int| 0 <= j < mems.len() && mems[j].id@ == x && owed(catalog, before, tokens, previous, #[trigger] mems[j]) != Owed::Nothing;
            lemma_memory_at(catalog, j);
        } else {
            assert(m0.dom().contains(x));
            assert(has_entry(before.delivered@, x));
            let i = choose|i: int| 0 <= i < before.delivered@.len() && before.delivered@[i].id@ == x;
            if retraction_of(catalog, before.active@, x) is Some {
                lemma_retractions_cover(catalog, before.active@, before.delivered@, i);
            }
        }
    }
    lemma_retractions_empty(catalog, after.active@, after.delivered@);
}

/// A scope's activation is the context size it was last turned on at: noting
/// a scope with a `forget` rule at `t` records `t`, over any earlier
/// activation; no other scope's activation changes; and a size that is not
/// known changes nothing.
pub proof fn lemma_the_latest_activation_is_the_one_kept(
    m: Map<Seq<char>, u64>,
    scope: Seq<char>,
    t: u64,
    scopes: Seq<crate::catalog::ScopeEntry>,
    other: Seq<char>,
)
    ensures
        crate::catalog::forget_rule_of(scopes, scope) is Some ==> activated(m, scope, Some(t), scopes).dom().contains(
            scope,
        ) && activated(m, scope, Some(t), scopes)[scope] == t,
        other != scope ==> (activated(m, scope, Some(t), scopes).dom().contains(other) == m.dom().contains(other)
            && (m.dom().contains(other) ==> activated(m, scope, Some(t), scopes)[other] == m[other])),
        activated(m, scope, None, scopes) == m,
{
}

} // verus!
