//! Every context the server knows about: what a context is made from when it
//! is first seen, which contexts outlive the retention window, the snapshot
//! the registry is written to and read back from, and what the contexts page,
//! the machine list and the scope index show of it.
use vstd::prelude::*;

use crate::catalog::{holds, string_views, Settings};
use crate::context::{initial_active, main_agent, same_state, ContextKey, ContextState, KeyView};
use crate::operations::copy_strings;
use crate::events::{opt_key, opt_view};
use crate::scopes::{global_id, machine_id, session_scope_id};
use crate::text::{
    chars_lt, chars_of, lemma_seq_lt_irreflexive, lemma_seq_lt_total, lemma_seq_lt_transitive, seq_lt,
};

verus! {

/// What a subagent's context starts with, which the store's settings decide.
#[derive(Clone, Copy, Debug, PartialEq, Eq, Structural)]
pub enum Inheritance {
    /// The scopes its session had active when it was spawned.
    FromParent,
    /// Only the scopes every context has: global, its machine and its session.
    ImplicitOnly,
}

/// What the store's settings ask a subagent to start with.
pub open spec fn inheritance_for(settings: Settings) -> Inheritance {
    if settings.subagents_inherit_scopes {
        Inheritance::FromParent
    } else {
        Inheritance::ImplicitOnly
    }
}

impl Inheritance {
    /// What the store's settings ask for.
    pub fn of(settings: &Settings) -> (inheritance: Inheritance)
        ensures
            inheritance == inheritance_for(*settings),
    {
        match settings.subagents_inherit_scopes {
            true => Inheritance::FromParent,
            false => Inheritance::ImplicitOnly,
        }
    }
}

/// What a context is made from, at the moment it is first seen. It is read
/// only when the context is created.
#[derive(Clone, Debug)]
pub struct Creation {
    /// What a subagent's context starts with.
    pub inheritance: Inheritance,
    /// The context a subagent inherits from and is recorded under. `None` is
    /// the session's own context.
    pub parent: Option<ContextKey>,
}

impl Creation {
    /// A context created by a caller that names no spawner: the MCP tools and
    /// the API reach a context by its key alone, so a subagent they create
    /// inherits from the session it runs in.
    pub fn in_session(settings: &Settings) -> (creation: Creation)
        ensures
            creation.inheritance == inheritance_for(*settings),
            creation.parent is None,
    {
        Creation { inheritance: Inheritance::of(settings), parent: None }
    }

    /// A context created by the event that spawned it, which says whether the
    /// spawner was another subagent or the session itself.
    pub fn spawned_by(settings: &Settings, parent: Option<ContextKey>) -> (creation: Creation)
        ensures
            creation.inheritance == inheritance_for(*settings),
            opt_key(creation.parent) == opt_key(parent),
            creation.parent == parent,
    {
        Creation { inheritance: Inheritance::of(settings), parent }
    }
}

/// Whether key `a` comes before key `b`: by machine, then by session, then
/// by agent, each in code point order.
pub open spec fn key_lt(a: KeyView, b: KeyView) -> bool {
    ||| seq_lt(a.machine, b.machine)
    ||| a.machine == b.machine && seq_lt(a.session_id, b.session_id)
    ||| a.machine == b.machine && a.session_id == b.session_id && seq_lt(a.agent, b.agent)
}

proof fn lemma_key_lt_irreflexive(a: KeyView)
    ensures
        !key_lt(a, a),
{
    lemma_seq_lt_irreflexive(a.machine);
    lemma_seq_lt_irreflexive(a.session_id);
    lemma_seq_lt_irreflexive(a.agent);
}

proof fn lemma_key_lt_transitive(a: KeyView, b: KeyView, c: KeyView)
    requires
        key_lt(a, b),
        key_lt(b, c),
    ensures
        key_lt(a, c),
{
    if seq_lt(a.machine, b.machine) && seq_lt(b.machine, c.machine) {
        lemma_seq_lt_transitive(a.machine, b.machine, c.machine);
    }
    if seq_lt(a.session_id, b.session_id) && seq_lt(b.session_id, c.session_id) {
        lemma_seq_lt_transitive(a.session_id, b.session_id, c.session_id);
    }
    if seq_lt(a.agent, b.agent) && seq_lt(b.agent, c.agent) {
        lemma_seq_lt_transitive(a.agent, b.agent, c.agent);
    }
}

proof fn lemma_key_lt_total(a: KeyView, b: KeyView)
    ensures
        a != b ==> key_lt(a, b) || key_lt(b, a),
{
    lemma_seq_lt_total(a.machine, b.machine);
    lemma_seq_lt_total(a.session_id, b.session_id);
    lemma_seq_lt_total(a.agent, b.agent);
}

/// Whether two keys name the same context.
pub(crate) fn same_key(a: &ContextKey, b: &ContextKey) -> (same: bool)
    ensures
        same == (a@ == b@),
{
    a.machine == b.machine && a.session_id == b.session_id && a.agent == b.agent
}

/// Whether key `a` comes before key `b`.
fn key_less(a: &ContextKey, b: &ContextKey) -> (less: bool)
    ensures
        less == key_lt(a@, b@),
{
    if chars_lt(&chars_of(a.machine.as_str()), &chars_of(b.machine.as_str())) {
        return true;
    }
    if a.machine != b.machine {
        return false;
    }
    if chars_lt(&chars_of(a.session_id.as_str()), &chars_of(b.session_id.as_str())) {
        return true;
    }
    if a.session_id != b.session_id {
        return false;
    }
    chars_lt(&chars_of(a.agent.as_str()), &chars_of(b.agent.as_str()))
}

/// One context and its state.
#[derive(Clone, Debug)]
pub struct ContextRecord {
    pub key: ContextKey,
    pub state: ContextState,
}

/// Whether the records are in key order, each key once.
pub open spec fn keys_sorted(v: Seq<ContextRecord>) -> bool {
    forall|i: int, j: int| 0 <= i < j < v.len() ==> key_lt(#[trigger] v[i].key@, #[trigger] v[j].key@)
}

/// Whether some record is of context `k`.
pub open spec fn holds_key(v: Seq<ContextRecord>, k: KeyView) -> bool {
    exists|i: int| 0 <= i < v.len() && v[i].key@ == k
}

/// The state recorded for context `k`.
pub open spec fn state_of(v: Seq<ContextRecord>, k: KeyView) -> Option<ContextState> {
    if holds_key(v, k) {
        Some(v[choose|i: int| 0 <= i < v.len() && v[i].key@ == k].state)
    } else {
        None
    }
}

/// In records kept in key order the state of a key is the one at its place.
pub(crate) proof fn lemma_state_at(v: Seq<ContextRecord>, i: int)
    requires
        keys_sorted(v),
        0 <= i < v.len(),
    ensures
        state_of(v, v[i].key@) == Some(v[i].state),
{
    let k = v[i].key@;
    assert(holds_key(v, k));
    let j = choose|j: int| 0 <= j < v.len() && v[j].key@ == k;
    lemma_key_lt_irreflexive(k);
    if j < i {
        assert(key_lt(v[j].key@, v[i].key@));
    } else if i < j {
        assert(key_lt(v[i].key@, v[j].key@));
    }
}

/// Where the record of `key` is, or, when there is none, where it would go.
fn position(v: &Vec<ContextRecord>, key: &ContextKey) -> (found: (usize, bool))
    requires
        keys_sorted(v@),
    ensures
        found.0 <= v@.len(),
        found.1 ==> found.0 < v@.len() && v@[found.0 as int].key@ == key@,
        found.1 == holds_key(v@, key@),
        !found.1 ==> forall|i: int| 0 <= i < found.0 ==> key_lt(#[trigger] v@[i].key@, key@),
        !found.1 ==> forall|i: int| found.0 <= i < v@.len() ==> key_lt(key@, #[trigger] v@[i].key@),
{
    let mut p: usize = 0;
    while p < v.len() && key_less(&v[p].key, key)
        invariant
            p <= v@.len(),
            forall|i: int| 0 <= i < p ==> key_lt(#[trigger] v@[i].key@, key@),
        decreases v.len() - p,
    {
        p += 1;
    }
    if p < v.len() && same_key(&v[p].key, key) {
        return (p, true);
    }
    proof {
        if p < v@.len() {
            lemma_key_lt_total(v@[p as int].key@, key@);
            assert forall|i: int| p <= i < v@.len() implies key_lt(key@, #[trigger] v@[i].key@) by {
                if i > p {
                    lemma_key_lt_transitive(key@, v@[p as int].key@, v@[i].key@);
                }
            }
        }
        assert forall|i: int| 0 <= i < v@.len() implies v@[i].key@ != key@ by {
            if v@[i].key@ == key@ {
                lemma_key_lt_irreflexive(key@);
            }
        }
    }
    (p, false)
}

/// Whether every recorded state is well formed.
pub open spec fn states_well_formed(v: Seq<ContextRecord>) -> bool {
    forall|i: int| 0 <= i < v.len() ==> (#[trigger] v[i]).state.well_formed()
}

/// `record` put in the place of its key among records that do not hold it.
pub(crate) fn insert_record(v: &mut Vec<ContextRecord>, record: ContextRecord) -> (at: usize)
    requires
        keys_sorted(old(v)@),
        states_well_formed(old(v)@),
        record.state.well_formed(),
        !holds_key(old(v)@, record.key@),
    ensures
        keys_sorted(final(v)@),
        states_well_formed(final(v)@),
        at < final(v)@.len(),
        final(v)@[at as int].key@ == record.key@,
        state_of(final(v)@, record.key@) == Some(record.state),
        forall|k: KeyView| k != record.key@ ==> #[trigger] state_of(final(v)@, k) == state_of(old(v)@, k),
{
    let ghost before = v@;
    let ghost key = record.key@;
    let ghost state = record.state;
    let (p, _) = position(v, &record.key);
    v.insert(p, record);
    proof {
        let after = v@;
        assert(after == before.insert(p as int, after[p as int]));
        assert forall|i: int, j: int| 0 <= i < j < after.len() implies key_lt(
            #[trigger] after[i].key@,
            #[trigger] after[j].key@,
        ) by {
            if j < p {
                assert(key_lt(before[i].key@, before[j].key@));
            } else if i < p && j == p {
                assert(key_lt(before[i].key@, key));
            } else if i < p && j > p {
                assert(key_lt(before[i].key@, before[j - 1].key@));
            } else if i == p {
                assert(key_lt(key, before[j - 1].key@));
            } else {
                assert(key_lt(before[i - 1].key@, before[j - 1].key@));
            }
        }
        assert forall|i: int| 0 <= i < after.len() implies (#[trigger] after[i]).state.well_formed() by {
            if i < p {
                assert(after[i] == before[i]);
            } else if i > p {
                assert(after[i] == before[i - 1]);
            }
        }
        lemma_state_at(after, p as int);
        assert forall|k: KeyView| k != key implies #[trigger] state_of(after, k) == state_of(before, k) by {
            if holds_key(before, k) {
                let i = choose|i: int| 0 <= i < before.len() && before[i].key@ == k;
                lemma_state_at(before, i);
                if i < p {
                    assert(after[i] == before[i]);
                    lemma_state_at(after, i);
                } else {
                    assert(after[i + 1] == before[i]);
                    lemma_state_at(after, i + 1);
                }
            } else if holds_key(after, k) {
                let i = choose|i: int| 0 <= i < after.len() && after[i].key@ == k;
                if i < p {
                    assert(after[i] == before[i]);
                } else if i > p {
                    assert(after[i] == before[i - 1]);
                }
            }
        }
    }
    p
}

/// The record at `at` taken out of records in key order.
pub(crate) fn take_record(v: &mut Vec<ContextRecord>, at: usize) -> (record: ContextRecord)
    requires
        keys_sorted(old(v)@),
        states_well_formed(old(v)@),
        at < old(v)@.len(),
    ensures
        record == old(v)@[at as int],
        keys_sorted(final(v)@),
        states_well_formed(final(v)@),
        !holds_key(final(v)@, record.key@),
        forall|k: KeyView| k != record.key@ ==> #[trigger] state_of(final(v)@, k) == state_of(old(v)@, k),
{
    let ghost before = v@;
    let record = v.remove(at);
    proof {
        let after = v@;
        assert(after =~= before.remove(at as int));
        assert forall|i: int, j: int| 0 <= i < j < after.len() implies key_lt(
            #[trigger] after[i].key@,
            #[trigger] after[j].key@,
        ) by {
            let oi = if i < at { i } else { i + 1 };
            let oj = if j < at { j } else { j + 1 };
            assert(after[i] == before[oi] && after[j] == before[oj]);
            assert(key_lt(before[oi].key@, before[oj].key@));
        }
        assert forall|i: int| 0 <= i < after.len() implies (#[trigger] after[i]).state.well_formed() by {
            let oi = if i < at { i } else { i + 1 };
            assert(after[i] == before[oi]);
        }
        assert forall|i: int| 0 <= i < after.len() implies after[i].key@ != record.key@ by {
            let oi = if i < at { i } else { i + 1 };
            assert(after[i] == before[oi]);
            lemma_key_lt_irreflexive(record.key@);
            if oi < at {
                assert(key_lt(before[oi].key@, before[at as int].key@));
            } else {
                assert(key_lt(before[at as int].key@, before[oi].key@));
            }
        }
        assert forall|k: KeyView| k != record.key@ implies #[trigger] state_of(after, k) == state_of(before, k) by {
            if holds_key(before, k) {
                let i = choose|i: int| 0 <= i < before.len() && before[i].key@ == k;
                lemma_state_at(before, i);
                assert(i != at);
                let ai = if i < at { i } else { i - 1 };
                assert(after[ai] == before[i]);
                lemma_state_at(after, ai);
            } else if holds_key(after, k) {
                let i = choose|i: int| 0 <= i < after.len() && after[i].key@ == k;
                let oi = if i < at { i } else { i + 1 };
                assert(after[i] == before[oi]);
            }
        }
    }
    record
}

/// The scopes every context starts in: `global`, its machine's and its
/// session's own.
pub open spec fn initial_scopes(k: KeyView) -> Seq<Seq<char>> {
    seq![global_id(), machine_id(k.machine), session_scope_id(k.machine, k.session_id)]
}

/// The key of the main context of the session `k` is in.
pub open spec fn session_of(k: KeyView) -> KeyView {
    KeyView { machine: k.machine, session_id: k.session_id, agent: main_agent() }
}

/// Whether `s` is a context just made: working in `active`, told nothing,
/// recorded under `parent`, begun in `directory`, seen at `now`, and nothing
/// else known of it yet.
pub open spec fn created_as(
    s: ContextState,
    active: Seq<Seq<char>>,
    parent: Option<KeyView>,
    directory: Option<Seq<char>>,
    now: i64,
) -> bool {
    &&& string_views(s.active@) == active
    &&& s.delivered@.len() == 0
    &&& opt_key(s.parent) == parent
    &&& opt_view(s.session_directory) == directory
    &&& s.session_title is None
    &&& s.first_prompt is None
    &&& s.task is None
    &&& s.agent_type is None
    &&& s.tokens is None
    &&& s.activated_at@.len() == 0
    &&& s.last_seen == now
}

/// The parent a context made for key `k` alone is recorded under: a
/// subagent's session, and nothing for a session's own context.
pub open spec fn parent_by_key(k: KeyView) -> Option<KeyView> {
    if k.agent != main_agent() {
        Some(session_of(k))
    } else {
        None
    }
}

/// The context a subagent made under `creation` is created from and recorded
/// under: the spawner the event named, or the session it runs in.
pub open spec fn spawner_of(k: KeyView, creation: Creation) -> KeyView {
    match creation.parent {
        Some(p) => p@,
        None => session_of(k),
    }
}

/// Whether a context has gone unseen for longer than `retention` seconds at
/// `now`. A context last seen after `now` has no age, and no retention keeps
/// every context.
pub open spec fn expired(retention: Option<u64>, last_seen: i64, now: i64) -> bool {
    match retention {
        Some(r) => now >= last_seen && now - last_seen > r,
        None => false,
    }
}

/// The seconds in `days` days, or the most a `u64` holds.
pub open spec fn retention_for(days: Option<u64>) -> Option<u64> {
    match days {
        Some(d) => Some(if d * 86400 > u64::MAX { u64::MAX } else { (d * 86400) as u64 }),
        None => None,
    }
}

/// Whether `after` is the registry `before` once context `key` was reached
/// at `now`: a context already recorded is left as it was; a session's own
/// context seen for the first time is made in the implicit scopes; a
/// subagent's is made from the context `creation` names as its spawner, or
/// its session, made first itself when it is not recorded, taking that
/// context's scopes unless the store wants subagents to start from the
/// implicit ones, and its session directory either way. Nothing else changes.
pub open spec fn handled(before: Seq<ContextRecord>, after: Seq<ContextRecord>, key: ContextKey, now: i64, creation: Creation) -> bool {
    &&& holds_key(before, key@) ==> after =~= before
    &&& !holds_key(before, key@) && key@.agent == main_agent() ==> {
        &&& created_as(state_of(after, key@).unwrap(), initial_scopes(key@), None, None, now)
        &&& forall|k: KeyView| k != key@ ==> #[trigger] state_of(after, k) == state_of(before, k)
    }
    &&& !holds_key(before, key@) && key@.agent != main_agent() ==> {
        let spawner = spawner_of(key@, creation);
        let parent = state_of(after, spawner).unwrap();
        &&& holds_key(after, spawner)
        &&& holds_key(before, spawner) ==> state_of(before, spawner) == Some(parent)
        &&& !holds_key(before, spawner) ==> created_as(parent, initial_scopes(spawner), parent_by_key(spawner), None, now)
        &&& spawner != key@ ==> created_as(
            state_of(after, key@).unwrap(),
            match creation.inheritance {
                Inheritance::FromParent => string_views(parent.active@),
                Inheritance::ImplicitOnly => initial_scopes(key@),
            },
            Some(spawner),
            opt_view(parent.session_directory),
            now,
        )
        &&& forall|k: KeyView| k != key@ && k != spawner ==> #[trigger] state_of(after, k) == state_of(before, k)
    }
}

/// Every context the server knows about, one record per key, in key order.
pub struct ContextRegistry {
    pub contexts: Vec<ContextRecord>,
    /// How long the snapshot writer waits for further changes, in
    /// milliseconds; zero writes on every change.
    pub debounce_ms: u64,
    /// Seconds a context may go unseen before it is dropped when the registry
    /// is loaded or snapshotted; `None` keeps every context.
    pub retention: Option<u64>,
}

impl ContextRegistry {
    /// The records are in key order, each key once, and each state is well
    /// formed.
    pub open spec fn well_formed(&self) -> bool {
        keys_sorted(self.contexts@) && states_well_formed(self.contexts@)
    }

    /// An empty registry.
    pub fn new(snapshot_debounce_ms: u64, context_retention_days: Option<u64>) -> (registry: ContextRegistry)
        ensures
            registry.well_formed(),
            registry.contexts@.len() == 0,
            registry.debounce_ms == snapshot_debounce_ms,
            registry.retention == retention_for(context_retention_days),
    {
        let retention = match context_retention_days {
            Some(days) => match days.checked_mul(86400) {
                Some(seconds) => Some(seconds),
                None => Some(u64::MAX),
            },
            None => None,
        };
        ContextRegistry { contexts: Vec::new(), debounce_ms: snapshot_debounce_ms, retention }
    }

    /// Whether `state` has gone unseen for longer than the retention window.
    pub fn is_expired(&self, state: &ContextState, now: i64) -> (gone: bool)
        ensures
            gone == expired(self.retention, state.last_seen, now),
    {
        match self.retention {
            Some(r) => {
                if now < state.last_seen {
                    return false;
                }
                let age: i128 = now as i128 - state.last_seen as i128;
                age > r as i128
            },
            None => false,
        }
    }

    /// Where the context a child is created from is, made first if absent:
    /// a spawner whose own context was dropped or never recorded is made from
    /// the implicit scopes and recorded under its session, which is as far as
    /// a key alone says.
    fn handle_parent(&mut self, key: &ContextKey, now: i64) -> (at: usize)
        requires
            old(self).well_formed(),
        ensures
            final(self).well_formed(),
            final(self).retention == old(self).retention,
            final(self).debounce_ms == old(self).debounce_ms,
            at < final(self).contexts@.len(),
            final(self).contexts@[at as int].key@ == key@,
            holds_key(old(self).contexts@, key@) ==> final(self).contexts@ == old(self).contexts@,
            !holds_key(old(self).contexts@, key@) ==> created_as(
                state_of(final(self).contexts@, key@).unwrap(),
                initial_scopes(key@),
                parent_by_key(key@),
                None,
                now,
            ),
            forall|k: KeyView| k != key@ ==> #[trigger] state_of(final(self).contexts@, k) == state_of(
                old(self).contexts@,
                k,
            ),
    {
        let (p, found) = position(&self.contexts, key);
        if found {
            return p;
        }
        let parent = if key.is_subagent() {
            Some(key.session_context())
        } else {
            None
        };
        let state = ContextState::fresh(initial_active(key.machine.as_str(), key.session_id.as_str()), parent, now);
        insert_record(&mut self.contexts, ContextRecord { key: key.duplicate(), state })
    }

    /// Where the record of context `key` is, made first if this is the first
    /// time the context is seen.
    ///
    /// A session's own context starts in the implicit scopes. A subagent's
    /// starts from the scopes of the context `creation` names as its parent,
    /// or its session when it names none, unless the store wants subagents to
    /// start from the implicit scopes; that parent is made first when it is not
    /// recorded. A subagent takes its parent's session directory either way,
    /// because it runs in its parent's session. Only the scopes are copied:
    /// a forgetting count is the context's own, so an inherited scope is
    /// counted from the child's own first event.
    pub fn handle(&mut self, key: &ContextKey, now: i64, creation: &Creation) -> (at: usize)
        requires
            old(self).well_formed(),
        ensures
            final(self).well_formed(),
            final(self).retention == old(self).retention,
            final(self).debounce_ms == old(self).debounce_ms,
            at < final(self).contexts@.len(),
            final(self).contexts@[at as int].key@ == key@,
            handled(old(self).contexts@, final(self).contexts@, *key, now, *creation),
    {
        let (p, found) = position(&self.contexts, key);
        if found {
            return p;
        }
        if !key.is_subagent() {
            let state = ContextState::fresh(initial_active(key.machine.as_str(), key.session_id.as_str()), None, now);
            return insert_record(&mut self.contexts, ContextRecord { key: key.duplicate(), state });
        }
        let spawner = match &creation.parent {
            Some(k) => k.duplicate(),
            None => key.session_context(),
        };
        let ghost before = self.contexts@;
        let q = self.handle_parent(&spawner, now);
        let ghost middle = self.contexts@;
        proof {
            lemma_state_at(middle, q as int);
        }
        let active = match creation.inheritance {
            Inheritance::FromParent => copy_strings(&self.contexts[q].state.active),
            Inheritance::ImplicitOnly => initial_active(key.machine.as_str(), key.session_id.as_str()),
        };
        let directory = crate::context::copy_text(&self.contexts[q].state.session_directory);
        let (p2, found2) = position(&self.contexts, key);
        if found2 {
            return p2;
        }
        let ghost spawner_view = spawner@;
        let mut state = ContextState::fresh(active, Some(spawner), now);
        state.session_directory = directory;
        let at = insert_record(&mut self.contexts, ContextRecord { key: key.duplicate(), state });
        proof {
            assert(spawner_view != key@);
            assert(state_of(self.contexts@, spawner_view) == state_of(middle, spawner_view));
        }
        at
    }
}

/// The shape of the state file this build reads, and the one it writes.
pub const CURRENT_VERSION: u32 = 1;

/// The whole registry as the state file holds it.
pub struct RegistrySnapshot {
    /// The shape the records are in; a file written before the field existed
    /// carries none, which is version 0.
    pub version: u32,
    pub contexts: Vec<ContextRecord>,
}

/// Whether two lists of records hold the same contexts with the same states,
/// in the same order.
pub open spec fn same_records(a: Seq<ContextRecord>, b: Seq<ContextRecord>) -> bool {
    &&& a.len() == b.len()
    &&& forall|i: int| 0 <= i < a.len() ==> (#[trigger] a[i]).key == b[i].key && same_state(a[i].state, b[i].state)
}

/// The records of `v` not gone unseen for longer than `retention` at `now`,
/// in their order.
pub open spec fn live(v: Seq<ContextRecord>, retention: Option<u64>, now: i64) -> Seq<ContextRecord>
    decreases v.len(),
{
    if v.len() == 0 {
        Seq::empty()
    } else {
        let rest = live(v.drop_last(), retention, now);
        if expired(retention, v.last().state.last_seen, now) {
            rest
        } else {
            rest.push(v.last())
        }
    }
}

/// The context each key names after the records of `v` are read in order,
/// leaving out those gone unseen too long: a later record of a key replaces
/// an earlier one.
pub open spec fn loaded(v: Seq<ContextRecord>, retention: Option<u64>, now: i64) -> Map<KeyView, ContextState>
    decreases v.len(),
{
    if v.len() == 0 {
        Map::empty()
    } else {
        let rest = loaded(v.drop_last(), retention, now);
        if expired(retention, v.last().state.last_seen, now) {
            rest
        } else {
            rest.insert(v.last().key@, v.last().state)
        }
    }
}

/// The record of a key already held replaced by `record`.
fn replace_record(v: &mut Vec<ContextRecord>, at: usize, record: ContextRecord)
    requires
        keys_sorted(old(v)@),
        states_well_formed(old(v)@),
        record.state.well_formed(),
        at < old(v)@.len(),
        old(v)@[at as int].key@ == record.key@,
    ensures
        keys_sorted(final(v)@),
        states_well_formed(final(v)@),
        state_of(final(v)@, record.key@) == Some(record.state),
        forall|k: KeyView| k != record.key@ ==> #[trigger] state_of(final(v)@, k) == state_of(old(v)@, k),
{
    let ghost before = v@;
    let ghost key = record.key@;
    v.remove(at);
    v.insert(at, record);
    proof {
        let after = v@;
        assert(after =~= before.update(at as int, after[at as int]));
        assert forall|i: int, j: int| 0 <= i < j < after.len() implies key_lt(
            #[trigger] after[i].key@,
            #[trigger] after[j].key@,
        ) by {
            assert(key_lt(before[i].key@, before[j].key@));
        }
        assert forall|i: int| 0 <= i < after.len() implies (#[trigger] after[i]).state.well_formed() by {
            if i != at {
                assert(after[i] == before[i]);
            }
        }
        lemma_state_at(after, at as int);
        assert forall|k: KeyView| k != key implies #[trigger] state_of(after, k) == state_of(before, k) by {
            if holds_key(before, k) {
                let i = choose|i: int| 0 <= i < before.len() && before[i].key@ == k;
                lemma_state_at(before, i);
                assert(after[i] == before[i]);
                lemma_state_at(after, i);
            } else if holds_key(after, k) {
                let i = choose|i: int| 0 <= i < after.len() && after[i].key@ == k;
                assert(after[i] == before[i]);
            }
        }
    }
}

impl ContextRegistry {
    /// Every context not gone unseen too long, with its state, in key order,
    /// written as the current shape: two snapshots of the same registry are
    /// the same.
    pub fn snapshot(&self, now: i64) -> (snapshot: RegistrySnapshot)
        requires
            self.well_formed(),
        ensures
            snapshot.version == CURRENT_VERSION,
            keys_sorted(snapshot.contexts@),
            states_well_formed(snapshot.contexts@),
            same_records(snapshot.contexts@, live(self.contexts@, self.retention, now)),
    {
        let ghost v = self.contexts@;
        let mut out: Vec<ContextRecord> = Vec::new();
        let mut i: usize = 0;
        while i < self.contexts.len()
            invariant
                v == self.contexts@,
                keys_sorted(v),
                states_well_formed(v),
                i <= v.len(),
                keys_sorted(out@),
                states_well_formed(out@),
                same_records(out@, live(v.take(i as int), self.retention, now)),
                forall|j: int| 0 <= j < out@.len() ==> exists|m: int| 0 <= m < i && (#[trigger] out@[j]).key@ == v[m].key@,
            decreases v.len() - i,
        {
            proof {
                assert(v.take(i + 1).drop_last() =~= v.take(i as int));
                assert(v.take(i + 1).last() == v[i as int]);
            }
            let record = &self.contexts[i];
            if !self.is_expired(&record.state, now) {
                let ghost was = out@;
                out.push(ContextRecord { key: record.key.duplicate(), state: record.state.duplicate() });
                proof {
                    assert forall|j: int| 0 <= j < out@.len() implies (#[trigger] out@[j]).state.well_formed() by {
                        if j < was.len() {
                            assert(out@[j] == was[j]);
                        } else {
                            assert(v[i as int].state.well_formed());
                        }
                    }
                    assert forall|a: int, b: int| 0 <= a < b < out@.len() implies key_lt(
                        #[trigger] out@[a].key@,
                        #[trigger] out@[b].key@,
                    ) by {
                        if b == out@.len() - 1 {
                            assert(out@[a] == was[a]);
                            let m = choose|m: int| 0 <= m < i && was[a].key@ == v[m].key@;
                            assert(key_lt(v[m].key@, v[i as int].key@));
                        } else {
                            assert(out@[a] == was[a]);
                            assert(out@[b] == was[b]);
                        }
                    }
                    assert forall|j: int| 0 <= j < out@.len() implies exists|m: int| 0 <= m < i + 1 && (#[trigger] out@[j]).key@ == v[m].key@ by {
                        if j < was.len() {
                            assert(out@[j] == was[j]);
                            let m = choose|m: int| 0 <= m < i && was[j].key@ == v[m].key@;
                        } else {
                            assert(out@[j].key@ == v[i as int].key@);
                        }
                    }
                    let l = live(v.take(i + 1), self.retention, now);
                    assert(l == live(v.take(i as int), self.retention, now).push(v[i as int]));
                    assert forall|j: int| 0 <= j < out@.len() implies (#[trigger] out@[j]).key == l[j].key && same_state(out@[j].state, l[j].state) by {
                        if j < was.len() {
                            assert(out@[j] == was[j]);
                        }
                    }
                }
            } else {
                proof {
                    assert forall|j: int| 0 <= j < out@.len() implies exists|m: int| 0 <= m < i + 1 && (#[trigger] out@[j]).key@ == v[m].key@ by {
                        let m = choose|m: int| 0 <= m < i && out@[j].key@ == v[m].key@;
                    }
                }
            }
            i += 1;
        }
        proof {
            assert(v.take(v.len() as int) =~= v);
        }
        RegistrySnapshot { version: CURRENT_VERSION, contexts: out }
    }

    /// The registry a snapshot records, brought up to the current shape
    /// first, without the contexts gone unseen for longer than the retention
    /// window. Each recorded state is well formed, as a state file written by
    /// this server holds them.
    pub fn from_snapshot(
        snapshot: RegistrySnapshot,
        snapshot_debounce_ms: u64,
        context_retention_days: Option<u64>,
        now: i64,
    ) -> (registry: ContextRegistry)
        requires
            states_well_formed(snapshot.contexts@),
        ensures
            registry.well_formed(),
            registry.debounce_ms == snapshot_debounce_ms,
            registry.retention == retention_for(context_retention_days),
            exists|current: RegistrySnapshot| {
                &&& #[trigger] brought_up(snapshot, current)
                &&& forall|k: KeyView| #[trigger] state_of(registry.contexts@, k) == (if loaded(
                    current.contexts@,
                    retention_for(context_retention_days),
                    now,
                ).dom().contains(k) {
                    Some(loaded(current.contexts@, retention_for(context_retention_days), now)[k])
                } else {
                    None
                })
            },
    {
        let mut snapshot = snapshot;
        let ghost given = snapshot;
        to_current(&mut snapshot);
        let ghost current = snapshot;
        let mut registry = ContextRegistry::new(snapshot_debounce_ms, context_retention_days);
        let ghost retention = retention_for(context_retention_days);
        let mut rest = snapshot.contexts;
        let ghost all = rest@;
        assert(all.len() == rest.len());
        let mut i: usize = 0;
        while rest.len() > 0
            invariant
                registry.well_formed(),
                registry.debounce_ms == snapshot_debounce_ms,
                registry.retention == retention,
                all == current.contexts@,
                states_well_formed(all),
                all.len() <= usize::MAX,
                i <= all.len(),
                rest@ == all.skip(i as int),
                forall|k: KeyView| #[trigger] state_of(registry.contexts@, k) == (if loaded(all.take(i as int), retention, now).dom().contains(k) {
                    Some(loaded(all.take(i as int), retention, now)[k])
                } else {
                    None
                }),
            decreases rest@.len(),
        {
            let record = rest.remove(0);
            proof {
                assert(all.skip(i as int)[0] == all[i as int]);
                assert(all.skip(i as int).remove(0) =~= all.skip(i + 1));
                assert(all.take(i + 1).drop_last() =~= all.take(i as int));
                assert(all.take(i + 1).last() == all[i as int]);
            }
            if !registry.is_expired(&record.state, now) {
                let ghost key = record.key@;
                let ghost state = record.state;
                let (p, found) = position(&registry.contexts, &record.key);
                if found {
                    replace_record(&mut registry.contexts, p, record);
                } else {
                    insert_record(&mut registry.contexts, record);
                }
                proof {
                    let m = loaded(all.take(i + 1), retention, now);
                    assert(m == loaded(all.take(i as int), retention, now).insert(key, state));
                }
            }
            i += 1;
        }
        proof {
            assert(all.take(i as int) =~= all);
            assert(brought_up(given, current));
        }
        registry
    }
}

/// Whether `after` is `before` brought up to the current shape: a version-0
/// file gives every subagent recorded without a parent the main context of
/// its own session, which is where version 0 always had it inherit from, and
/// is then version 1; a file of any other version is read as it stands.
pub open spec fn brought_up(before: RegistrySnapshot, after: RegistrySnapshot) -> bool {
    &&& after.version == (if before.version == 0 { 1 } else { before.version })
    &&& after.contexts@.len() == before.contexts@.len()
    &&& forall|i: int| 0 <= i < before.contexts@.len() ==> {
        let b = #[trigger] before.contexts@[i];
        let a = after.contexts@[i];
        &&& a.key == b.key
        &&& a.state.active == b.state.active
        &&& a.state.delivered == b.state.delivered
        &&& a.state.session_directory == b.state.session_directory
        &&& a.state.session_title == b.state.session_title
        &&& a.state.first_prompt == b.state.first_prompt
        &&& a.state.task == b.state.task
        &&& a.state.agent_type == b.state.agent_type
        &&& a.state.tokens == b.state.tokens
        &&& a.state.activated_at == b.state.activated_at
        &&& a.state.last_seen == b.state.last_seen
        &&& if before.version == 0 && b.key@.agent != main_agent() && b.state.parent is None {
            opt_key(a.state.parent) == Some(session_of(b.key@))
        } else {
            a.state.parent == b.state.parent
        }
    }
}

/// Bring a snapshot written by an earlier build up to the shape this one
/// reads. A snapshot of the current version is left as it is, and so is one of
/// a version this build does not know: its records are read as they stand.
pub fn to_current(snapshot: &mut RegistrySnapshot)
    ensures
        brought_up(*old(snapshot), *final(snapshot)),
        states_well_formed(old(snapshot).contexts@) ==> states_well_formed(final(snapshot).contexts@),
{
    if snapshot.version == 0 {
        give_every_subagent_the_context_it_inherited_from(snapshot);
        snapshot.version = 1;
    }
}

/// Version 0 to 1: a subagent recorded without a parent takes the main
/// context of its own session, the context it inherited its scopes from in
/// version 0.
fn give_every_subagent_the_context_it_inherited_from(snapshot: &mut RegistrySnapshot)
    requires
        old(snapshot).version == 0,
    ensures
        final(snapshot).version == 0,
        brought_up(*old(snapshot), RegistrySnapshot { version: 1, contexts: final(snapshot).contexts }),
        states_well_formed(old(snapshot).contexts@) ==> states_well_formed(final(snapshot).contexts@),
{
    let ghost before = snapshot.contexts@;
    assert(before.len() == snapshot.contexts.len());
    let mut rest: Vec<ContextRecord> = Vec::new();
    std::mem::swap(&mut rest, &mut snapshot.contexts);
    let mut out: Vec<ContextRecord> = Vec::new();
    let mut i: usize = 0;
    while rest.len() > 0
        invariant
            before.len() <= usize::MAX,
            i <= before.len(),
            rest@ == before.skip(i as int),
            out@.len() == i,
            forall|j: int| 0 <= j < i ==> {
                let b = #[trigger] before[j];
                let a = out@[j];
                &&& a.key == b.key
                &&& a.state.active == b.state.active
                &&& a.state.delivered == b.state.delivered
                &&& a.state.session_directory == b.state.session_directory
                &&& a.state.session_title == b.state.session_title
                &&& a.state.first_prompt == b.state.first_prompt
                &&& a.state.task == b.state.task
                &&& a.state.agent_type == b.state.agent_type
                &&& a.state.tokens == b.state.tokens
                &&& a.state.activated_at == b.state.activated_at
                &&& a.state.last_seen == b.state.last_seen
                &&& if b.key@.agent != main_agent() && b.state.parent is None {
                    opt_key(a.state.parent) == Some(session_of(b.key@))
                } else {
                    a.state.parent == b.state.parent
                }
            },
            states_well_formed(before) ==> states_well_formed(out@),
        decreases rest@.len(),
    {
        let mut record = rest.remove(0);
        proof {
            assert(before.skip(i as int)[0] == before[i as int]);
            assert(before.skip(i as int).remove(0) =~= before.skip(i + 1));
        }
        if record.key.is_subagent() && record.state.parent.is_none() {
            record.state.parent = Some(record.key.session_context());
        }
        out.push(record);
        i += 1;
    }
    proof {
        assert(before.skip(i as int).len() == 0);
    }
    snapshot.contexts = out;
}

/// A key before another in key order is not that key.
proof fn lemma_key_lt_distinct(a: KeyView, b: KeyView)
    requires
        key_lt(a, b),
    ensures
        a != b,
{
    lemma_key_lt_irreflexive(a);
}

/// Records read in key order give each record not gone unseen too long, and
/// nothing else.
proof fn lemma_loaded_sorted(c: Seq<ContextRecord>, retention: Option<u64>, now: i64)
    requires
        keys_sorted(c),
    ensures
        forall|i: int| 0 <= i < c.len() && !expired(retention, c[i].state.last_seen, now) ==> {
            &&& loaded(c, retention, now).dom().contains(#[trigger] c[i].key@)
            &&& loaded(c, retention, now)[c[i].key@] == c[i].state
        },
        forall|k: KeyView| #[trigger] loaded(c, retention, now).dom().contains(k) ==> exists|i: int|
            0 <= i < c.len() && c[i].key@ == k && !expired(retention, c[i].state.last_seen, now),
    decreases c.len(),
{
    if c.len() > 0 {
        let d = c.drop_last();
        let n = c.len() - 1;
        assert forall|i: int, j: int| 0 <= i < j < d.len() implies key_lt(#[trigger] d[i].key@, #[trigger] d[j].key@) by {
            assert(d[i] == c[i] && d[j] == c[j]);
            assert(key_lt(c[i].key@, c[j].key@));
        }
        lemma_loaded_sorted(d, retention, now);
        assert forall|i: int| 0 <= i < c.len() && !expired(retention, c[i].state.last_seen, now) implies {
            &&& loaded(c, retention, now).dom().contains(#[trigger] c[i].key@)
            &&& loaded(c, retention, now)[c[i].key@] == c[i].state
        } by {
            if i < n {
                assert(d[i] == c[i]);
                assert(key_lt(c[i].key@, c[n].key@));
                lemma_key_lt_distinct(c[i].key@, c[n].key@);
            }
        }
        assert forall|k: KeyView| #[trigger] loaded(c, retention, now).dom().contains(k) implies exists|i: int|
            0 <= i < c.len() && c[i].key@ == k && !expired(retention, c[i].state.last_seen, now) by {
            if loaded(d, retention, now).dom().contains(k) {
                let i = choose|i: int| 0 <= i < d.len() && d[i].key@ == k && !expired(retention, d[i].state.last_seen, now);
                assert(d[i] == c[i]);
            } else {
                assert(c[n].key@ == k);
            }
        }
    }
}

/// Each record of `live(v)` is a record of `v` not gone unseen too long, in
/// its order, and each such record of `v` is one of them.
proof fn lemma_live_members(v: Seq<ContextRecord>, retention: Option<u64>, now: i64)
    ensures
        forall|j: int| #![trigger live(v, retention, now)[j]] 0 <= j < live(v, retention, now).len() ==> exists|i: int|
            0 <= i < v.len() && live(v, retention, now)[j] == v[i] && !expired(retention, v[i].state.last_seen, now),
        forall|i: int| #![trigger v[i]] 0 <= i < v.len() && !expired(retention, v[i].state.last_seen, now) ==> exists|j: int|
            0 <= j < live(v, retention, now).len() && live(v, retention, now)[j] == v[i],
    decreases v.len(),
{
    if v.len() > 0 {
        let d = v.drop_last();
        let n = v.len() - 1;
        lemma_live_members(d, retention, now);
        let l = live(v, retention, now);
        let ld = live(d, retention, now);
        assert forall|j: int| #![trigger l[j]] 0 <= j < l.len() implies exists|i: int|
            0 <= i < v.len() && l[j] == v[i] && !expired(retention, v[i].state.last_seen, now) by {
            if j < ld.len() {
                assert(l[j] == ld[j]);
                let i = choose|i: int| 0 <= i < d.len() && ld[j] == d[i] && !expired(retention, d[i].state.last_seen, now);
                assert(d[i] == v[i]);
            } else {
                assert(l[j] == v[n]);
            }
        }
        assert forall|i: int| #![trigger v[i]] 0 <= i < v.len() && !expired(retention, v[i].state.last_seen, now) implies exists|j: int|
            0 <= j < l.len() && l[j] == v[i] by {
            if i < n {
                assert(d[i] == v[i]);
                let j = choose|j: int| 0 <= j < ld.len() && ld[j] == d[i];
                assert(l[j] == ld[j]);
            } else {
                assert(l[ld.len() as int] == v[n]);
            }
        }
    }
}

/// The records a current snapshot brings up are those the registry kept
/// live, in key order, each with the same state.
proof fn lemma_current_matches_live(
    v: Seq<ContextRecord>,
    r: Option<u64>,
    now: i64,
    snapshot: RegistrySnapshot,
    current: RegistrySnapshot,
)
    requires
        snapshot.version == CURRENT_VERSION,
        keys_sorted(snapshot.contexts@),
        same_records(snapshot.contexts@, live(v, r, now)),
        brought_up(snapshot, current),
    ensures
        keys_sorted(current.contexts@),
        matches_live(v, r, now, current.contexts@),
{
    let l = live(v, r, now);
    let sn = snapshot.contexts@;
    let c = current.contexts@;
    lemma_live_members(v, r, now);
    assert forall|i: int| 0 <= i < c.len() implies {
        &&& (#[trigger] c[i]).key == l[i].key
        &&& same_state(c[i].state, l[i].state)
        &&& !expired(r, c[i].state.last_seen, now)
    } by {
        let b = sn[i];
        assert(b.key == l[i].key && same_state(b.state, l[i].state));
        let x = choose|x: int| 0 <= x < v.len() && l[i] == v[x] && !expired(r, v[x].state.last_seen, now);
    }
    assert forall|i: int, j: int| 0 <= i < j < c.len() implies key_lt(#[trigger] c[i].key@, #[trigger] c[j].key@) by {
        let b = sn[i];
        let e = sn[j];
        assert(key_lt(sn[i].key@, sn[j].key@));
    }
}

/// Whether `c` matches the live records of `v` one for one: the same keys in
/// the same order, each with the same state, none gone unseen too long.
pub open spec fn matches_live(v: Seq<ContextRecord>, r: Option<u64>, now: i64, c: Seq<ContextRecord>) -> bool {
    &&& c.len() == live(v, r, now).len()
    &&& forall|i: int| 0 <= i < c.len() ==> {
        &&& (#[trigger] c[i]).key == live(v, r, now)[i].key
        &&& same_state(c[i].state, live(v, r, now)[i].state)
        &&& !expired(r, c[i].state.last_seen, now)
    }
}

/// A context read back from records matching the live ones was live in `v`,
/// with the same state.
proof fn lemma_read_back_was_live(v: Seq<ContextRecord>, r: Option<u64>, now: i64, c: Seq<ContextRecord>, k: KeyView)
    requires
        keys_sorted(v),
        keys_sorted(c),
        matches_live(v, r, now, c),
        loaded(c, r, now).dom().contains(k),
    ensures
        state_of(v, k) is Some,
        !expired(r, state_of(v, k).unwrap().last_seen, now),
        same_state(loaded(c, r, now)[k], state_of(v, k).unwrap()),
{
    let l = live(v, r, now);
    lemma_loaded_sorted(c, r, now);
    let i = choose|i: int| 0 <= i < c.len() && c[i].key@ == k && !expired(r, c[i].state.last_seen, now);
    assert(c[i].key == l[i].key);
    lemma_live_members(v, r, now);
    let x = choose|x: int| 0 <= x < v.len() && l[i] == v[x] && !expired(r, v[x].state.last_seen, now);
    lemma_state_at(v, x);
}

/// A context live in `v` is read back from records matching the live ones.
proof fn lemma_live_is_read_back(v: Seq<ContextRecord>, r: Option<u64>, now: i64, c: Seq<ContextRecord>, x: int)
    requires
        keys_sorted(v),
        keys_sorted(c),
        matches_live(v, r, now, c),
        0 <= x < v.len(),
        !expired(r, v[x].state.last_seen, now),
    ensures
        loaded(c, r, now).dom().contains(v[x].key@),
{
    let l = live(v, r, now);
    lemma_live_members(v, r, now);
    assert(v[x] == v[x]);
    let j = choose|j: int| 0 <= j < l.len() && l[j] == v[x];
    assert(c[j].key == l[j].key);
    lemma_loaded_sorted(c, r, now);
    assert(c[j].key@ == v[x].key@);
}

/// What a snapshot records is what a registry read back from it holds: every
/// context the registry held and had not let go unseen for longer than its
/// retention comes back with the same state, and no other context comes back.
pub proof fn lemma_snapshot_reads_back(
    registry: ContextRegistry,
    snapshot: RegistrySnapshot,
    current: RegistrySnapshot,
    now: i64,
    k: KeyView,
)
    requires
        registry.well_formed(),
        snapshot.version == CURRENT_VERSION,
        keys_sorted(snapshot.contexts@),
        same_records(snapshot.contexts@, live(registry.contexts@, registry.retention, now)),
        brought_up(snapshot, current),
    ensures
        loaded(current.contexts@, registry.retention, now).dom().contains(k) == (match state_of(registry.contexts@, k) {
            Some(s) => !expired(registry.retention, s.last_seen, now),
            None => false,
        }),
        loaded(current.contexts@, registry.retention, now).dom().contains(k) ==> same_state(
            loaded(current.contexts@, registry.retention, now)[k],
            state_of(registry.contexts@, k).unwrap(),
        ),
{
    let v = registry.contexts@;
    let r = registry.retention;
    let c = current.contexts@;
    lemma_current_matches_live(v, r, now, snapshot, current);
    if loaded(c, r, now).dom().contains(k) {
        lemma_read_back_was_live(v, r, now, c, k);
    }
    if holds_key(v, k) {
        let x = choose|x: int| 0 <= x < v.len() && v[x].key@ == k;
        lemma_state_at(v, x);
        if !expired(r, v[x].state.last_seen, now) {
            lemma_live_is_read_back(v, r, now, c, x);
        }
    }
}

/// One line of the contexts page.
#[derive(Clone, Debug)]
pub struct ContextRow {
    /// The key as the MCP tools take it.
    pub key: String,
    /// What to call the context in a list.
    pub name: String,
    pub title: Option<String>,
    pub first_prompt: Option<String>,
    /// The key of the context this one inherited from.
    pub parent: Option<String>,
    pub task: Option<String>,
    pub agent_type: Option<String>,
    pub active_scopes: Vec<String>,
    /// How many memories the context holds as delivered.
    pub delivered_count: usize,
    /// When the context was last seen, in seconds since the epoch.
    pub last_seen: i64,
}

/// The key text of an optional parent.
pub open spec fn parent_text(p: Option<ContextKey>) -> Option<Seq<char>> {
    match p {
        Some(k) => Some(crate::context::key_text(k@)),
        None => None,
    }
}

/// Whether `row` is the line of the context `record` holds.
pub open spec fn row_of(record: ContextRecord, row: ContextRow) -> bool {
    &&& row.key@ == crate::context::key_text(record.key@)
    &&& row.name@ == crate::naming::context_name_spec(&record.key, &record.state)
    &&& row.title == record.state.session_title
    &&& row.first_prompt == record.state.first_prompt
    &&& opt_view(row.parent) == parent_text(record.state.parent)
    &&& row.task == record.state.task
    &&& row.agent_type == record.state.agent_type
    &&& string_views(row.active_scopes@) == string_views(record.state.active@)
    &&& row.delivered_count == record.state.delivered@.len()
    &&& row.last_seen == record.state.last_seen
}

/// Whether `a` is listed before `b`: the one seen most recently first, and
/// of two seen at the same instant the one first in key order.
pub open spec fn listed_before(a: ContextRecord, b: ContextRecord) -> bool {
    a.state.last_seen > b.state.last_seen || (a.state.last_seen == b.state.last_seen && key_lt(a.key@, b.key@))
}

/// Whether `order` lists each of the positions `0..n` exactly once.
pub open spec fn lists_each(order: Seq<usize>, n: nat) -> bool {
    &&& order.len() == n
    &&& forall|j: int| 0 <= j < order.len() ==> (#[trigger] order[j]) < n
    &&& forall|j: int, k: int| 0 <= j < k < order.len() ==> #[trigger] order[j] != #[trigger] order[k]
}

/// The line of one context.
fn row(record: &ContextRecord) -> (line: ContextRow)
    ensures
        row_of(*record, line),
{
    ContextRow {
        key: record.key.to_string(),
        name: crate::naming::context_name(&record.key, &record.state),
        title: crate::context::copy_text(&record.state.session_title),
        first_prompt: crate::context::copy_text(&record.state.first_prompt),
        parent: match &record.state.parent {
            Some(k) => Some(k.to_string()),
            None => None,
        },
        task: crate::context::copy_text(&record.state.task),
        agent_type: crate::context::copy_text(&record.state.agent_type),
        active_scopes: copy_strings(&record.state.active),
        delivered_count: record.state.delivered.len(),
        last_seen: record.state.last_seen,
    }
}

/// Whether `a` is listed before `b`.
fn is_listed_before(a: &ContextRecord, b: &ContextRecord) -> (before: bool)
    ensures
        before == listed_before(*a, *b),
{
    a.state.last_seen > b.state.last_seen || (a.state.last_seen == b.state.last_seen && key_less(&a.key, &b.key))
}

/// Every context of a snapshot as a line of the contexts page, the one seen
/// most recently first and those seen at the same instant in key order, which
/// is the order the page lists them in.
pub fn contexts(snapshot: &RegistrySnapshot) -> (rows: Vec<ContextRow>)
    requires
        keys_sorted(snapshot.contexts@),
    ensures
        exists|order: Seq<usize>| {
            &&& lists_each(order, snapshot.contexts@.len())
            &&& rows@.len() == order.len()
            &&& forall|j: int| 0 <= j < order.len() ==> row_of(snapshot.contexts@[order[j] as int], #[trigger] rows@[j])
            &&& forall|j: int, k: int| 0 <= j < k < order.len() ==> listed_before(
                #[trigger] snapshot.contexts@[order[j] as int],
                #[trigger] snapshot.contexts@[order[k] as int],
            )
        },
{
    let records = &snapshot.contexts;
    let ghost v = records@;
    let mut order: Vec<usize> = Vec::new();
    let mut i: usize = 0;
    while i < records.len()
        invariant
            v == records@,
            keys_sorted(v),
            i <= v.len(),
            lists_each(order@, i as nat),
            forall|j: int, k: int| 0 <= j < k < order@.len() ==> listed_before(
                #[trigger] v[order@[j] as int],
                #[trigger] v[order@[k] as int],
            ),
        decreases v.len() - i,
    {
        let mut p: usize = 0;
        while p < order.len() && is_listed_before(&records[order[p]], &records[i])
            invariant
                v == records@,
                i < v.len(),
                p <= order@.len(),
                lists_each(order@, i as nat),
                forall|j: int| 0 <= j < p ==> listed_before(#[trigger] v[order@[j] as int], v[i as int]),
            decreases order.len() - p,
        {
            p += 1;
        }
        let ghost before = order@;
        proof {
            if p < before.len() {
                let o = before[p as int] as int;
                assert(o < i);
                assert(key_lt(v[o].key@, v[i as int].key@));
                lemma_key_lt_distinct(v[o].key@, v[i as int].key@);
                lemma_key_lt_total(v[o].key@, v[i as int].key@);
                assert(listed_before(v[i as int], v[o]));
            }
        }
        order.insert(p, i);
        proof {
            let after = order@;
            assert(after =~= before.insert(p as int, i));
            assert forall|j: int| 0 <= j < after.len() implies (#[trigger] after[j]) < i + 1 by {
                if j < p {
                    assert(after[j] == before[j]);
                } else if j > p {
                    assert(after[j] == before[j - 1]);
                }
            }
            assert forall|j: int, k: int| 0 <= j < k < after.len() implies #[trigger] after[j] != #[trigger] after[k] by {
                if j < p && k < p {
                    assert(after[j] == before[j] && after[k] == before[k]);
                } else if j < p && k == p {
                    assert(after[j] == before[j]);
                } else if j < p && k > p {
                    assert(after[j] == before[j] && after[k] == before[k - 1]);
                } else if j == p {
                    assert(after[k] == before[k - 1]);
                } else {
                    assert(after[j] == before[j - 1] && after[k] == before[k - 1]);
                }
            }
            assert forall|j: int, k: int| 0 <= j < k < after.len() implies listed_before(
                #[trigger] v[after[j] as int],
                #[trigger] v[after[k] as int],
            ) by {
                if j < p && k < p {
                    assert(after[j] == before[j] && after[k] == before[k]);
                } else if j < p && k == p {
                    assert(after[j] == before[j]);
                } else if j < p && k > p {
                    assert(after[j] == before[j] && after[k] == before[k - 1]);
                    let o = before[p as int] as int;
                    assert(listed_before(v[after[j] as int], v[i as int]));
                    assert(listed_before(v[i as int], v[o]));
                    if k - 1 > p {
                        assert(listed_before(v[o], v[before[k - 1] as int]));
                    }
                    lemma_listed_before_transitive(v[after[j] as int], v[i as int], v[after[k] as int]);
                } else if j == p {
                    assert(after[k] == before[k - 1]);
                    let o = before[p as int] as int;
                    if k - 1 > p {
                        assert(listed_before(v[o], v[before[k - 1] as int]));
                        lemma_listed_before_transitive(v[i as int], v[o], v[after[k] as int]);
                    }
                } else {
                    assert(after[j] == before[j - 1] && after[k] == before[k - 1]);
                }
            }
        }
        i += 1;
    }
    let mut rows: Vec<ContextRow> = Vec::new();
    let mut k: usize = 0;
    while k < order.len()
        invariant
            v == records@,
            lists_each(order@, v.len()),
            k <= order@.len(),
            rows@.len() == k,
            forall|j: int| 0 <= j < k ==> row_of(v[order@[j] as int], #[trigger] rows@[j]),
        decreases order.len() - k,
    {
        rows.push(row(&records[order[k]]));
        k += 1;
    }
    rows
}

/// Listing order is transitive.
proof fn lemma_listed_before_transitive(a: ContextRecord, b: ContextRecord, c: ContextRecord)
    requires
        listed_before(a, b),
        listed_before(b, c),
    ensures
        listed_before(a, c),
{
    if a.state.last_seen == b.state.last_seen && b.state.last_seen == c.state.last_seen {
        lemma_key_lt_transitive(a.key@, b.key@, c.key@);
    }
}

/// The machines the contexts of `v` run on.
pub open spec fn machines_of(v: Seq<ContextRecord>) -> Set<Seq<char>> {
    Set::new(|m: Seq<char>| exists|i: int| 0 <= i < v.len() && (#[trigger] v[i]).key.machine@ == m)
}

/// Every machine name the server knows: the machines of the contexts of one
/// registry snapshot together with the ones a statistics log recorded, in
/// order and each once.
pub fn machine_names(snapshot: &RegistrySnapshot, recorded: &Vec<String>) -> (names: Vec<String>)
    ensures
        crate::text::strictly_sorted(string_views(names@)),
        crate::engine::set_of(names@) == crate::engine::set_of(recorded@).union(machines_of(snapshot.contexts@)),
{
    let mut names: Vec<String> = Vec::new();
    let mut i: usize = 0;
    while i < recorded.len()
        invariant
            i <= recorded@.len(),
            crate::text::strictly_sorted(string_views(names@)),
            crate::engine::set_of(names@) == crate::engine::set_of(recorded@.take(i as int)),
        decreases recorded.len() - i,
    {
        proof {
            crate::sessions::lemma_set_of_take(recorded@, i as int);
        }
        crate::engine::sorted_insert(&mut names, &recorded[i]);
        i += 1;
    }
    assert(recorded@.take(recorded@.len() as int) =~= recorded@);
    let ghost v = snapshot.contexts@;
    let mut k: usize = 0;
    while k < snapshot.contexts.len()
        invariant
            v == snapshot.contexts@,
            k <= v.len(),
            crate::text::strictly_sorted(string_views(names@)),
            crate::engine::set_of(names@) == crate::engine::set_of(recorded@).union(machines_of(v.take(k as int))),
        decreases v.len() - k,
    {
        crate::engine::sorted_insert(&mut names, &snapshot.contexts[k].key.machine);
        proof {
            assert forall|m: Seq<char>| #[trigger] machines_of(v.take(k + 1)).contains(m) == (machines_of(v.take(k as int)).contains(m)
                || m == v[k as int].key.machine@) by {
                if machines_of(v.take(k + 1)).contains(m) {
                    let j = choose|j: int| 0 <= j < v.take(k + 1).len() && (#[trigger] v.take(k + 1)[j]).key.machine@ == m;
                    if j < k {
                        assert(v.take(k as int)[j] == v.take(k + 1)[j]);
                    }
                }
                if machines_of(v.take(k as int)).contains(m) {
                    let j = choose|j: int| 0 <= j < v.take(k as int).len() && (#[trigger] v.take(k as int)[j]).key.machine@ == m;
                    assert(v.take(k + 1)[j] == v.take(k as int)[j]);
                }
                if m == v[k as int].key.machine@ {
                    assert(v.take(k + 1)[k as int] == v[k as int]);
                }
            }
            assert(crate::engine::set_of(names@) =~= crate::engine::set_of(recorded@).union(machines_of(v.take(k + 1))));
        }
        k += 1;
    }
    assert(v.take(v.len() as int) =~= v);
    names
}

/// One scope that exists, in the index of scopes.
#[derive(Clone, Debug)]
pub struct ScopeRow {
    pub id: String,
    pub kind: crate::scopes::ScopeKind,
    /// What to call a session, from its context, the name the contexts page
    /// shows; absent for the other kinds and for a session with no context.
    pub name: Option<String>,
    /// The scope's file, for a scope that has one.
    pub file: Option<crate::operations::ScopeDoc>,
}

/// The machine and session a memory id keeps its notes under, for a memory
/// of a session's own silo: `sessions/<machine>/<session-id>/<name>`.
pub open spec fn silo_of(id: Seq<char>) -> Option<(Seq<char>, Seq<char>)> {
    let parts = crate::text::split_on(id, '/');
    if parts.len() == 4 && parts[0] == "sessions"@ && parts[1].len() > 0 && parts[2].len() > 0 {
        Some((parts[1], parts[2]))
    } else {
        None
    }
}

/// The scope of the session a silo memory id keeps its notes under.
pub open spec fn silo_scope(id: Seq<char>) -> Seq<char> {
    match silo_of(id) {
        Some((m, s)) => session_scope_id(m, s),
        None => Seq::empty(),
    }
}

/// Whether `x` is the scope of a machine the statistics recorded or a context
/// runs on.
pub open spec fn known_machine_scope(recorded: Seq<String>, v: Seq<ContextRecord>, x: Seq<char>) -> bool {
    exists|m: Seq<char>| #[trigger] machine_id(m) == x && (crate::engine::set_of(recorded).contains(m)
        || machines_of(v).contains(m))
}

/// Whether `x` is the scope of one of the machines `names`.
pub open spec fn scope_of_machine_in(names: Seq<String>, x: Seq<char>) -> bool {
    exists|j: int| 0 <= j < names.len() && machine_id(#[trigger] names[j]@) == x
}

/// Whether a main context among `v` has `id` as its session's own scope.
pub open spec fn session_of_context(v: Seq<ContextRecord>, id: Seq<char>) -> bool {
    exists|i: int| 0 <= i < v.len() && (#[trigger] v[i]).key@.agent == main_agent()
        && id == session_scope_id(v[i].key.machine@, v[i].key.session_id@)
}

/// Every scope that exists: each scope with a file, `global`, the scope of
/// every machine the server knows, the scope of every session with a context
/// or with notes in the store, and every machine's or session's scope a file
/// of the store names. A scope of the file kind exists only by its file.
pub open spec fn index_ids(catalog: crate::catalog::Catalog, v: Seq<ContextRecord>, recorded: Seq<String>) -> Set<Seq<char>> {
    Set::new(|x: Seq<char>| {
        ||| crate::operations::has_scope(catalog, x)
        ||| x == global_id()
        ||| known_machine_scope(recorded, v, x)
        ||| session_of_context(v, x)
        ||| exists|i: int| 0 <= i < catalog.memories@.len() && (#[trigger] silo_of(catalog.memories@[i].id@)) is Some && x
            == silo_scope(catalog.memories@[i].id@)
        ||| (crate::scopes::scope_kind_of(x) == crate::scopes::ScopeKind::Machine
            || crate::scopes::scope_kind_of(x) == crate::scopes::ScopeKind::Session) && crate::sessions::named_by_store(catalog, x)
    })
}

/// The ids of a list of rows.
pub open spec fn row_ids(rows: Seq<ScopeRow>) -> Seq<Seq<char>> {
    rows.map_values(|r: ScopeRow| r.id@)
}

/// Whether `row` is what the index shows for its scope: its kind read from its
/// id, its file when it has one, and for a session's scope the name of the
/// session's context when it has one that names it.
pub open spec fn indexed(catalog: crate::catalog::Catalog, v: Seq<ContextRecord>, row: ScopeRow) -> bool {
    &&& row.kind == crate::scopes::scope_kind_of(row.id@)
    &&& match row.file {
        Some(d) => exists|i: int| 0 <= i < catalog.scopes@.len() && catalog.scopes@[i].id@ == row.id@
            && crate::operations::documents(d, #[trigger] catalog.scopes@[i]),
        None => !crate::operations::has_scope(catalog, row.id@),
    }
    &&& match row.name {
        Some(n) => exists|i: int| 0 <= i < v.len() && (#[trigger] v[i]).key@.agent == main_agent()
            && row.id@ == session_scope_id(v[i].key.machine@, v[i].key.session_id@)
            && n@ == crate::naming::context_name_spec(&v[i].key, &v[i].state) && n@.len() > 0,
        None => forall|i: int| 0 <= i < v.len() && (#[trigger] v[i]).key@.agent == main_agent()
            && row.id@ == session_scope_id(v[i].key.machine@, v[i].key.session_id@)
            ==> crate::naming::context_name_spec(&v[i].key, &v[i].state).len() == 0,
    }
}

/// The machine and session of a silo memory id, read the way [`silo_of`] reads it.
pub(crate) fn silo(id: &String) -> (found: Option<(String, String)>)
    ensures
        match found {
            Some((m, s)) => silo_of(id@) == Some((m@, s@)),
            None => silo_of(id@) is None,
        },
{
    let parts = crate::text::split_chars(chars_of(id.as_str()).as_slice(), '/');
    if parts.len() != 4 || parts[1].len() == 0 || parts[2].len() == 0 {
        return None;
    }
    proof {
        reveal_strlit("sessions");
    }
    if !crate::text::same_chars(parts[0].as_slice(), chars_of("sessions").as_slice()) {
        return None;
    }
    Some((crate::text::string_of(parts[1].as_slice()), crate::text::string_of(parts[2].as_slice())))
}

/// The file of scope `id`, when the store has one.
fn file_of(catalog: &crate::catalog::Catalog, id: &String) -> (file: Option<crate::operations::ScopeDoc>)
    ensures
        match file {
            Some(d) => exists|i: int| 0 <= i < catalog.scopes@.len() && catalog.scopes@[i].id@ == id@
                && crate::operations::documents(d, #[trigger] catalog.scopes@[i]),
            None => !crate::operations::has_scope(*catalog, id@),
        },
{
    let mut f: usize = 0;
    while f < catalog.scopes.len()
        invariant
            f <= catalog.scopes@.len(),
            forall|j: int| 0 <= j < f ==> catalog.scopes@[j].id@ != id@,
        decreases catalog.scopes.len() - f,
    {
        if catalog.scopes[f].id == *id {
            return Some(crate::operations::scope_doc(&catalog.scopes[f]));
        }
        f += 1;
    }
    None
}

/// The name of the session whose own scope is `id`, from the first of its
/// main contexts that has one.
fn session_name(snapshot: &RegistrySnapshot, id: &String) -> (name: Option<String>)
    ensures
        match name {
            Some(n) => exists|i: int| 0 <= i < snapshot.contexts@.len() && (#[trigger] snapshot.contexts@[i]).key@.agent
                == main_agent() && id@ == session_scope_id(
                snapshot.contexts@[i].key.machine@,
                snapshot.contexts@[i].key.session_id@,
            ) && n@ == crate::naming::context_name_spec(&snapshot.contexts@[i].key, &snapshot.contexts@[i].state)
                && n@.len() > 0,
            None => forall|i: int| 0 <= i < snapshot.contexts@.len() && (#[trigger] snapshot.contexts@[i]).key@.agent
                == main_agent() && id@ == session_scope_id(
                snapshot.contexts@[i].key.machine@,
                snapshot.contexts@[i].key.session_id@,
            ) ==> crate::naming::context_name_spec(&snapshot.contexts@[i].key, &snapshot.contexts@[i].state).len() == 0,
        },
{
    let ghost v = snapshot.contexts@;
    let mut q: usize = 0;
    while q < snapshot.contexts.len()
        invariant
            v == snapshot.contexts@,
            q <= v.len(),
            forall|j: int| 0 <= j < q && (#[trigger] v[j]).key@.agent == main_agent() && id@ == session_scope_id(
                v[j].key.machine@,
                v[j].key.session_id@,
            ) ==> crate::naming::context_name_spec(&v[j].key, &v[j].state).len() == 0,
        decreases v.len() - q,
    {
        let record = &snapshot.contexts[q];
        if !record.key.is_subagent() && record.key.session_scope() == *id {
            let called = crate::naming::context_name(&record.key, &record.state);
            if chars_of(called.as_str()).len() > 0 {
                return Some(called);
            }
        }
        q += 1;
    }
    None
}

/// Whether a scope of this kind is one a file can name into existence: a
/// machine's or a session's own scope.
pub open spec fn named_kind(x: Seq<char>) -> bool {
    crate::scopes::scope_kind_of(x) == crate::scopes::ScopeKind::Machine
        || crate::scopes::scope_kind_of(x) == crate::scopes::ScopeKind::Session
}

/// Add each id of `list` that is a machine's or a session's scope.
fn note_named(ids: &mut Vec<String>, list: &Vec<String>)
    requires
        crate::text::strictly_sorted(string_views(old(ids)@)),
    ensures
        crate::text::strictly_sorted(string_views(final(ids)@)),
        forall|x: Seq<char>| #[trigger] crate::engine::set_of(final(ids)@).contains(x) == (crate::engine::set_of(
            old(ids)@,
        ).contains(x) || (holds(list@, x) && named_kind(x))),
{
    let ghost start = crate::engine::set_of(ids@);
    let mut i: usize = 0;
    while i < list.len()
        invariant
            i <= list@.len(),
            start == crate::engine::set_of(old(ids)@),
            crate::text::strictly_sorted(string_views(ids@)),
            forall|x: Seq<char>| #[trigger] crate::engine::set_of(ids@).contains(x) == (start.contains(x) || (holds(
                list@.take(i as int),
                x,
            ) && named_kind(x))),
        decreases list.len() - i,
    {
        proof {
            crate::context::lemma_holds_take(list@, i as int);
        }
        let kind = crate::scopes::scope_kind(&list[i]);
        let ghost was = crate::engine::set_of(ids@);
        if kind == crate::scopes::ScopeKind::Machine || kind == crate::scopes::ScopeKind::Session {
            crate::engine::sorted_insert(ids, &list[i]);
        }
        proof {
            assert forall|x: Seq<char>| #[trigger] crate::engine::set_of(ids@).contains(x) == (start.contains(x) || (holds(
                list@.take(i + 1),
                x,
            ) && named_kind(x))) by {
                assert(holds(list@.take(i + 1), x) == (holds(list@.take(i as int), x) || list@[i as int]@ == x));
                assert(was.contains(x) == (start.contains(x) || (holds(list@.take(i as int), x) && named_kind(x))));
            }
        }
        i += 1;
    }
    assert(list@.take(list@.len() as int) =~= list@);
}

/// The index of every scope that exists, in id order: each scope with a
/// file, `global`, the scope of every machine the server knows from its
/// contexts or its statistics, the scope of every session with a context or
/// with notes in the store, and every machine's or session's scope a file of
/// the store names. A scope of the file kind exists only by its file, so a
/// memory's scopes, a scope's `implies` and a context's active scopes may name
/// one that is not here.
pub fn scope_index(
    catalog: &crate::catalog::Catalog,
    snapshot: &RegistrySnapshot,
    recorded: &Vec<String>,
) -> (rows: Vec<ScopeRow>)
    ensures
        crate::text::strictly_sorted(row_ids(rows@)),
        forall|x: Seq<char>| index_ids(*catalog, snapshot.contexts@, recorded@).contains(x) == exists|i: int|
            0 <= i < rows@.len() && (#[trigger] rows@[i]).id@ == x,
        forall|i: int| 0 <= i < rows@.len() ==> indexed(*catalog, snapshot.contexts@, #[trigger] rows@[i]),
{
    let ghost v = snapshot.contexts@;
    let mut ids: Vec<String> = Vec::new();
    // Every scope with a file.
    let mut i: usize = 0;
    while i < catalog.scopes.len()
        invariant
            i <= catalog.scopes@.len(),
            crate::text::strictly_sorted(string_views(ids@)),
            forall|x: Seq<char>| #[trigger] crate::engine::set_of(ids@).contains(x) == exists|j: int|
                0 <= j < i && catalog.scopes@[j].id@ == x,
        decreases catalog.scopes.len() - i,
    {
        crate::engine::sorted_insert(&mut ids, &catalog.scopes[i].id);
        proof {
            assert forall|x: Seq<char>| #[trigger] crate::engine::set_of(ids@).contains(x) == exists|j: int|
                0 <= j < i + 1 && catalog.scopes@[j].id@ == x by {
                if x == catalog.scopes@[i as int].id@ {
                    assert(0 <= i < i + 1 && catalog.scopes@[i as int].id@ == x);
                }
            }
        }
        i += 1;
    }
    let ghost files = crate::engine::set_of(ids@);
    assert forall|x: Seq<char>| files.contains(x) == crate::operations::has_scope(*catalog, x) by {}
    // `global`.
    crate::engine::sorted_insert(&mut ids, &crate::scopes::global());
    // Every machine the server knows.
    let names = machine_names(snapshot, recorded);
    let ghost base = crate::engine::set_of(ids@);
    let mut k: usize = 0;
    while k < names.len()
        invariant
            k <= names@.len(),
            crate::text::strictly_sorted(string_views(ids@)),
            forall|x: Seq<char>| #[trigger] crate::engine::set_of(ids@).contains(x) == (base.contains(x) || scope_of_machine_in(
                names@.take(k as int),
                x,
            )),
        decreases names.len() - k,
    {
        let id = crate::scopes::machine(names[k].as_str());
        crate::engine::sorted_insert(&mut ids, &id);
        proof {
            assert forall|x: Seq<char>| #[trigger] crate::engine::set_of(ids@).contains(x) == (base.contains(x) || scope_of_machine_in(
                names@.take(k + 1),
                x,
            )) by {
                if scope_of_machine_in(names@.take(k + 1), x) {
                    let j = choose|j: int| 0 <= j < names@.take(k + 1).len() && machine_id(#[trigger] names@.take(k + 1)[j]@) == x;
                    if j < k {
                        assert(names@.take(k as int)[j] == names@.take(k + 1)[j]);
                    }
                }
                if scope_of_machine_in(names@.take(k as int), x) {
                    let j = choose|j: int| 0 <= j < names@.take(k as int).len() && machine_id(#[trigger] names@.take(k as int)[j]@) == x;
                    assert(names@.take(k as int)[j] == names@.take(k + 1)[j]);
                }
                if x == id@ {
                    assert(names@.take(k + 1)[k as int] == names@[k as int]);
                }
            }
        }
        k += 1;
    }
    assert(names@.take(names@.len() as int) =~= names@);
    assert forall|x: Seq<char>| #[trigger] scope_of_machine_in(names@, x) == known_machine_scope(recorded@, v, x) by {
        if scope_of_machine_in(names@, x) {
            let j = choose|j: int| 0 <= j < names@.len() && machine_id(#[trigger] names@[j]@) == x;
            assert(crate::engine::set_of(names@).contains(names@[j]@));
        }
        if known_machine_scope(recorded@, v, x) {
            let m = choose|m: Seq<char>| #[trigger] machine_id(m) == x && (crate::engine::set_of(recorded@).contains(m) || machines_of(v).contains(m));
            assert(crate::engine::set_of(names@).contains(m));
            let j = choose|j: int| 0 <= j < names@.len() && names@[j]@ == m;
            assert(machine_id(names@[j]@) == x);
        }
    }
    // The session of every main context.
    let ghost base = crate::engine::set_of(ids@);
    let mut c: usize = 0;
    while c < snapshot.contexts.len()
        invariant
            v == snapshot.contexts@,
            c <= v.len(),
            crate::text::strictly_sorted(string_views(ids@)),
            forall|x: Seq<char>| #[trigger] crate::engine::set_of(ids@).contains(x) == (base.contains(x) || exists|j: int|
                0 <= j < c && (#[trigger] v[j]).key@.agent == main_agent() && x == session_scope_id(
                    v[j].key.machine@,
                    v[j].key.session_id@,
                )),
        decreases v.len() - c,
    {
        let record = &snapshot.contexts[c];
        if !record.key.is_subagent() {
            let id = record.key.session_scope();
            crate::engine::sorted_insert(&mut ids, &id);
            proof {
                assert forall|x: Seq<char>| #[trigger] crate::engine::set_of(ids@).contains(x) == (base.contains(x) || exists|j: int|
                    0 <= j < c + 1 && (#[trigger] v[j]).key@.agent == main_agent() && x == session_scope_id(
                        v[j].key.machine@,
                        v[j].key.session_id@,
                    )) by {
                    if x == id@ {
                        assert(v[c as int].key@.agent == main_agent());
                    }
                }
            }
        }
        c += 1;
    }
    // The session of every silo of notes.
    let ghost base = crate::engine::set_of(ids@);
    let mut m: usize = 0;
    while m < catalog.memories.len()
        invariant
            m <= catalog.memories@.len(),
            crate::text::strictly_sorted(string_views(ids@)),
            forall|x: Seq<char>| #[trigger] crate::engine::set_of(ids@).contains(x) == (base.contains(x) || exists|j: int|
                0 <= j < m && (#[trigger] silo_of(catalog.memories@[j].id@)) is Some && x == silo_scope(catalog.memories@[j].id@)),
        decreases catalog.memories.len() - m,
    {
        match silo(&catalog.memories[m].id) {
            Some((machine_name, session_id)) => {
                let id = crate::scopes::session(machine_name.as_str(), session_id.as_str());
                crate::engine::sorted_insert(&mut ids, &id);
                proof {
                    assert forall|x: Seq<char>| #[trigger] crate::engine::set_of(ids@).contains(x) == (base.contains(x) || exists|j: int|
                        0 <= j < m + 1 && (#[trigger] silo_of(catalog.memories@[j].id@)) is Some && x == silo_scope(catalog.memories@[j].id@)) by {
                        if x == id@ {
                            assert(silo_of(catalog.memories@[m as int].id@) is Some);
                        }
                    }
                }
            },
            None => {},
        }
        m += 1;
    }
    // Every machine's or session's scope a file names.
    let ghost base = crate::engine::set_of(ids@);
    let mut n: usize = 0;
    while n < catalog.memories.len()
        invariant
            n <= catalog.memories@.len(),
            crate::text::strictly_sorted(string_views(ids@)),
            forall|x: Seq<char>| #[trigger] crate::engine::set_of(ids@).contains(x) == (base.contains(x) || (named_kind(x)
                && exists|j: int| 0 <= j < n && holds(#[trigger] catalog.memories@[j].scopes@, x))),
        decreases catalog.memories.len() - n,
    {
        note_named(&mut ids, &catalog.memories[n].scopes);
        proof {
            assert forall|x: Seq<char>| #[trigger] crate::engine::set_of(ids@).contains(x) == (base.contains(x) || (named_kind(x)
                && exists|j: int| 0 <= j < n + 1 && holds(#[trigger] catalog.memories@[j].scopes@, x))) by {
                if named_kind(x) && holds(catalog.memories@[n as int].scopes@, x) {
                    assert(0 <= n < n + 1);
                }
            }
        }
        n += 1;
    }
    let ghost base2 = crate::engine::set_of(ids@);
    let mut e: usize = 0;
    while e < catalog.scopes.len()
        invariant
            e <= catalog.scopes@.len(),
            crate::text::strictly_sorted(string_views(ids@)),
            forall|x: Seq<char>| #[trigger] crate::engine::set_of(ids@).contains(x) == (base2.contains(x) || (named_kind(x)
                && exists|j: int| 0 <= j < e && holds(#[trigger] catalog.scopes@[j].implies@, x))),
        decreases catalog.scopes.len() - e,
    {
        note_named(&mut ids, &catalog.scopes[e].implies);
        proof {
            assert forall|x: Seq<char>| #[trigger] crate::engine::set_of(ids@).contains(x) == (base2.contains(x) || (named_kind(x)
                && exists|j: int| 0 <= j < e + 1 && holds(#[trigger] catalog.scopes@[j].implies@, x))) by {
                if named_kind(x) && holds(catalog.scopes@[e as int].implies@, x) {
                    assert(0 <= e < e + 1);
                }
            }
        }
        e += 1;
    }
    proof {
        assert forall|x: Seq<char>| #[trigger] crate::engine::set_of(ids@).contains(x) == index_ids(*catalog, v, recorded@).contains(x) by {}
    }
    // One row per scope.
    let mut rows: Vec<ScopeRow> = Vec::new();
    let mut r: usize = 0;
    while r < ids.len()
        invariant
            v == snapshot.contexts@,
            r <= ids@.len(),
            rows@.len() == r,
            forall|j: int| 0 <= j < r ==> (#[trigger] rows@[j]).id@ == ids@[j]@,
            forall|j: int| 0 <= j < r ==> indexed(*catalog, v, #[trigger] rows@[j]),
        decreases ids.len() - r,
    {
        let id = &ids[r];
        let row = ScopeRow {
            id: id.clone(),
            kind: crate::scopes::scope_kind(id),
            name: session_name(snapshot, id),
            file: file_of(catalog, id),
        };
        rows.push(row);
        r += 1;
    }
    proof {
        assert(row_ids(rows@) =~= string_views(ids@));
        assert forall|x: Seq<char>| index_ids(*catalog, v, recorded@).contains(x) == exists|i: int|
            0 <= i < rows@.len() && (#[trigger] rows@[i]).id@ == x by {
            assert(crate::engine::set_of(ids@).contains(x) == holds(ids@, x));
            if holds(ids@, x) {
                let i = choose|i: int| 0 <= i < ids@.len() && ids@[i]@ == x;
                assert(rows@[i].id@ == x);
            }
            if exists|i: int| 0 <= i < rows@.len() && (#[trigger] rows@[i]).id@ == x {
                let i = choose|i: int| 0 <= i < rows@.len() && (#[trigger] rows@[i]).id@ == x;
                assert(ids@[i]@ == x);
            }
        }
    }
    rows
}

} // verus!
