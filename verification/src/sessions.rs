//! What the session tools do to one context: show the scopes it works in,
//! turn scopes on and off, and take over another session's scopes.
//!
//! Each call changes one context's own state and never the store. A call is
//! one change: one that is refused leaves the context as it was.
use vstd::prelude::*;

use crate::catalog::{holds, holds_string, string_views, Catalog, ScopeEntry};
use crate::context::{activated, activation_map, append_strings, ContextKey, ContextState, key_text};
use crate::engine::{closed_under, closure, set_of, sorted_insert};
use crate::operations::{has_scope, OperationError};
use crate::scopes::{scope_kind, scope_kind_of, session_scope_id, ScopeKind};
use crate::events::opt_view;
use crate::text::{seq_lt, strictly_sorted};

verus! {

/// The scopes one context works in, and the ones it could turn on.
#[derive(Clone, Debug)]
pub struct SessionScopes {
    pub active: Vec<String>,
    /// Scopes with a file that are not active, in the order of the store; the
    /// implicit scopes are not offered, because they are on by construction.
    pub available: Vec<String>,
}

/// The ids of the scopes with a file that `active` does not hold, in the
/// order of the store.
pub open spec fn available_ids(scopes: Seq<ScopeEntry>, active: Seq<String>) -> Seq<Seq<char>>
    decreases scopes.len(),
{
    if scopes.len() == 0 {
        Seq::empty()
    } else {
        let rest = available_ids(scopes.drop_last(), active);
        if holds(active, scopes.last().id@) {
            rest
        } else {
            rest.push(scopes.last().id@)
        }
    }
}

/// The answer every session tool gives: the scopes `active`, and the scopes
/// with a file it could still turn on.
pub fn session_scopes_of(catalog: &Catalog, active: Vec<String>) -> (answer: SessionScopes)
    ensures
        answer.active@ == active@,
        string_views(answer.available@) == available_ids(catalog.scopes@, active@),
{
    let mut available: Vec<String> = Vec::new();
    let mut i: usize = 0;
    while i < catalog.scopes.len()
        invariant
            i <= catalog.scopes@.len(),
            string_views(available@) == available_ids(catalog.scopes@.take(i as int), active@),
        decreases catalog.scopes.len() - i,
    {
        proof {
            assert(catalog.scopes@.take(i + 1).drop_last() =~= catalog.scopes@.take(i as int));
            assert(catalog.scopes@.take(i + 1).last() == catalog.scopes@[i as int]);
        }
        if !holds_string(&active, &catalog.scopes[i].id) {
            let ghost before = available@;
            available.push(catalog.scopes[i].id.clone());
            proof {
                assert(string_views(available@) =~= string_views(before).push(catalog.scopes@[i as int].id@));
            }
        }
        i += 1;
    }
    proof {
        assert(catalog.scopes@.take(catalog.scopes@.len() as int) =~= catalog.scopes@);
    }
    SessionScopes { active, available }
}

/// Whether some file of the store names `id`: a memory among its scopes, or a
/// scope among the scopes it implies.
pub open spec fn named_by_store(catalog: Catalog, id: Seq<char>) -> bool {
    ||| exists|i: int| 0 <= i < catalog.memories@.len() && holds(#[trigger] catalog.memories@[i].scopes@, id)
    ||| exists|i: int| 0 <= i < catalog.scopes@.len() && holds(#[trigger] catalog.scopes@[i].implies@, id)
}

/// Whether some memory of the store is a note of the session whose own
/// scope is `id`, kept in that session's silo.
pub open spec fn silo_in_store(catalog: Catalog, id: Seq<char>) -> bool {
    exists|i: int| 0 <= i < catalog.memories@.len() && (#[trigger] crate::registry::silo_of(catalog.memories@[i].id@)) is Some
        && crate::registry::silo_scope(catalog.memories@[i].id@) == id
}

/// Whether `id` is a scope of this store: `global` always, a scope with a file
/// by its file, and a machine's or a session's own scope once a file of the
/// store names it, in its scopes, in what it implies or by its place.
pub open spec fn known_scope(catalog: Catalog, id: Seq<char>) -> bool {
    match scope_kind_of(id) {
        ScopeKind::Global => true,
        ScopeKind::Defined => has_scope(catalog, id),
        _ => has_scope(catalog, id) || named_by_store(catalog, id) || silo_in_store(catalog, id),
    }
}

/// Whether some memory of the store is a note of the session whose own
/// scope is `id`.
fn holds_silo(catalog: &Catalog, id: &String) -> (found: bool)
    ensures
        found == silo_in_store(*catalog, id@),
{
    let mut i: usize = 0;
    while i < catalog.memories.len()
        invariant
            i <= catalog.memories@.len(),
            forall|j: int| 0 <= j < i ==> !((#[trigger] crate::registry::silo_of(catalog.memories@[j].id@)) is Some
                && crate::registry::silo_scope(catalog.memories@[j].id@) == id@),
        decreases catalog.memories.len() - i,
    {
        match crate::registry::silo(&catalog.memories[i].id) {
            Some((machine_name, session_id)) => {
                let scope = crate::scopes::session(machine_name.as_str(), session_id.as_str());
                if scope == *id {
                    return true;
                }
            },
            None => {},
        }
        i += 1;
    }
    false
}

/// Whether the store has a file for scope `id`.
fn declares_scope(catalog: &Catalog, id: &String) -> (found: bool)
    ensures
        found == has_scope(*catalog, id@),
{
    let mut i: usize = 0;
    while i < catalog.scopes.len()
        invariant
            i <= catalog.scopes@.len(),
            forall|j: int| 0 <= j < i ==> catalog.scopes@[j].id@ != id@,
        decreases catalog.scopes.len() - i,
    {
        if catalog.scopes[i].id == *id {
            return true;
        }
        i += 1;
    }
    false
}

/// Whether some file of the store names scope `id`.
fn names_scope(catalog: &Catalog, id: &String) -> (found: bool)
    ensures
        found == named_by_store(*catalog, id@),
{
    let mut i: usize = 0;
    while i < catalog.memories.len()
        invariant
            i <= catalog.memories@.len(),
            forall|j: int| 0 <= j < i ==> !holds(#[trigger] catalog.memories@[j].scopes@, id@),
        decreases catalog.memories.len() - i,
    {
        if holds_string(&catalog.memories[i].scopes, id) {
            return true;
        }
        i += 1;
    }
    let mut k: usize = 0;
    while k < catalog.scopes.len()
        invariant
            k <= catalog.scopes@.len(),
            forall|j: int| 0 <= j < catalog.memories@.len() ==> !holds(#[trigger] catalog.memories@[j].scopes@, id@),
            forall|j: int| 0 <= j < k ==> !holds(#[trigger] catalog.scopes@[j].implies@, id@),
        decreases catalog.scopes.len() - k,
    {
        if holds_string(&catalog.scopes[k].implies, id) {
            return true;
        }
        k += 1;
    }
    false
}

/// Whether `id` is a scope of this store.
pub fn is_known_scope(catalog: &Catalog, id: &String) -> (known: bool)
    ensures
        known == known_scope(*catalog, id@),
{
    let kind = scope_kind(id);
    if kind == ScopeKind::Global {
        return true;
    }
    if declares_scope(catalog, id) {
        return true;
    }
    if kind == ScopeKind::Defined {
        return false;
    }
    names_scope(catalog, id) || holds_silo(catalog, id)
}

/// The activations after each of `scopes` is turned on in turn at `tokens`.
pub open spec fn activated_all(
    acts: Map<Seq<char>, u64>,
    scopes: Seq<String>,
    tokens: Option<u64>,
    entries: Seq<ScopeEntry>,
) -> Map<Seq<char>, u64>
    decreases scopes.len(),
{
    if scopes.len() == 0 {
        acts
    } else {
        activated(activated_all(acts, scopes.drop_last(), tokens, entries), scopes.last()@, tokens, entries)
    }
}

/// What stays as it was in a context whatever a session tool does to its
/// scopes: what it was shown, its size, who it is and what it is called.
pub open spec fn same_record(before: ContextState, after: ContextState) -> bool {
    &&& after.delivered == before.delivered
    &&& after.tokens == before.tokens
    &&& after.parent == before.parent
    &&& after.session_directory == before.session_directory
    &&& after.session_title == before.session_title
    &&& after.first_prompt == before.first_prompt
    &&& after.task == before.task
    &&& after.agent_type == before.agent_type
}

/// The context after `scopes` were turned on in `before` at time `now`: it
/// works in the least set of scopes that holds what it worked in, the scopes
/// named, and every scope those imply; each scope named counts as activated at
/// the size the last event reported.
pub open spec fn turned_on(before: ContextState, after: ContextState, scopes: Seq<String>, catalog: Catalog, now: i64) -> bool {
    let asked = set_of(before.active@).union(set_of(scopes));
    &&& asked <= set_of(after.active@)
    &&& closed_under(set_of(after.active@), catalog.scopes@)
    &&& forall|s: Set<Seq<char>>| asked <= s && closed_under(s, catalog.scopes@) ==> set_of(after.active@) <= s
    &&& activation_map(after.activated_at@) == activated_all(
        activation_map(before.activated_at@),
        scopes,
        before.tokens,
        catalog.scopes@,
    )
    &&& same_record(before, after)
    &&& after.last_seen == now
}

/// The set of two lists of scope ids one after the other is the union of
/// their sets.
proof fn lemma_set_of_concat(a: Seq<String>, b: Seq<String>)
    ensures
        set_of(a + b) == set_of(a).union(set_of(b)),
{
    assert forall|k: Seq<char>| #[trigger] set_of(a + b).contains(k) == set_of(a).union(set_of(b)).contains(k) by {
        if holds(a + b, k) {
            let i = choose|i: int| 0 <= i < (a + b).len() && (#[trigger] (a + b)[i])@ == k;
            if i < a.len() {
                assert((a + b)[i] == a[i]);
            } else {
                assert((a + b)[i] == b[i - a.len()]);
            }
        }
        if holds(a, k) {
            let i = choose|i: int| 0 <= i < a.len() && (#[trigger] a[i])@ == k;
            assert((a + b)[i] == a[i]);
        }
        if holds(b, k) {
            let i = choose|i: int| 0 <= i < b.len() && (#[trigger] b[i])@ == k;
            assert((a + b)[a.len() + i] == b[i]);
        }
    }
    assert(set_of(a + b) =~= set_of(a).union(set_of(b)));
}

/// One id more in a list is one id more in its set.
proof fn lemma_set_of_push(v: Seq<String>, x: String)
    ensures
        set_of(v.push(x)) == set_of(v).insert(x@),
{
    assert forall|k: Seq<char>| #[trigger] set_of(v.push(x)).contains(k) == set_of(v).insert(x@).contains(k) by {
        if holds(v.push(x), k) {
            let i = choose|i: int| 0 <= i < v.push(x).len() && (#[trigger] v.push(x)[i])@ == k;
            if i < v.len() {
                assert(v.push(x)[i] == v[i]);
            }
        }
        if holds(v, k) {
            let i = choose|i: int| 0 <= i < v.len() && (#[trigger] v[i])@ == k;
            assert(v.push(x)[i] == v[i]);
        }
        if k == x@ {
            assert(v.push(x)[v.len() as int] == x);
        }
    }
    assert(set_of(v.push(x)) =~= set_of(v).insert(x@));
}

/// The set of the first `i + 1` ids of a list is that of the first `i` and
/// the id at `i`.
pub proof fn lemma_set_of_take(v: Seq<String>, i: int)
    requires
        0 <= i < v.len(),
    ensures
        set_of(v.take(i + 1)) == set_of(v.take(i)).insert(v[i]@),
{
    assert(v.take(i + 1) =~= v.take(i).push(v[i]));
    lemma_set_of_push(v.take(i), v[i]);
}

/// A copy of a list of scope ids.
fn copy_ids(v: &Vec<String>) -> (out: Vec<String>)
    ensures
        out@ == v@,
{
    let mut out: Vec<String> = Vec::new();
    append_strings(&mut out, v);
    assert(out@ =~= v@);
    out
}

/// Turn `scopes` on in one context, with everything they imply.
///
/// The whole list is one change: every id is checked against the store before
/// anything is turned on, so a list naming a scope the store does not have
/// leaves the context working in exactly the scopes it was, and the closure
/// is taken once with all of them in. The call has no event of its own, so
/// each scope counts as activated at the size the last event reported.
pub fn session_scope_on(
    state: &mut ContextState,
    scopes: &Vec<String>,
    catalog: &Catalog,
    now: i64,
) -> (answer: Result<SessionScopes, OperationError>)
    requires
        old(state).well_formed(),
    ensures
        final(state).well_formed(),
        match answer {
            Ok(s) => {
                &&& scopes@.len() > 0
                &&& forall|i: int| 0 <= i < scopes@.len() ==> known_scope(*catalog, #[trigger] scopes@[i]@)
                &&& turned_on(*old(state), *final(state), scopes@, *catalog, now)
                &&& s.active@ == final(state).active@
                &&& string_views(s.available@) == available_ids(catalog.scopes@, final(state).active@)
            },
            Err(OperationError::EmptyScopeList) => scopes@.len() == 0 && *final(state) == *old(state),
            Err(OperationError::UnknownScope { id }) => {
                &&& *final(state) == *old(state)
                &&& exists|i: int| 0 <= i < scopes@.len() && id@ == scopes@[i]@ && !known_scope(*catalog, scopes@[i]@)
                    && forall|j: int| 0 <= j < i ==> known_scope(*catalog, #[trigger] scopes@[j]@)
            },
            Err(_) => false,
        },
{
    if scopes.len() == 0 {
        return Err(OperationError::EmptyScopeList);
    }
    let mut i: usize = 0;
    while i < scopes.len()
        invariant
            i <= scopes@.len(),
            *state == *old(state),
            state.well_formed(),
            forall|j: int| 0 <= j < i ==> known_scope(*catalog, #[trigger] scopes@[j]@),
        decreases scopes.len() - i,
    {
        if !is_known_scope(catalog, &scopes[i]) {
            return Err(OperationError::UnknownScope { id: scopes[i].clone() });
        }
        i += 1;
    }
    let ghost before = *state;
    let mut asked = copy_ids(&state.active);
    append_strings(&mut asked, scopes);
    proof {
        lemma_set_of_concat(before.active@, scopes@);
    }
    let all = closure(catalog, &asked);
    state.active = all;
    let tokens = state.tokens;
    let mut k: usize = 0;
    while k < scopes.len()
        invariant
            k <= scopes@.len(),
            state.well_formed(),
            state.active@ == all@,
            tokens == before.tokens,
            same_record(before, *state),
            state.last_seen == before.last_seen,
            activation_map(state.activated_at@) == activated_all(
                activation_map(before.activated_at@),
                scopes@.take(k as int),
                tokens,
                catalog.scopes@,
            ),
        decreases scopes.len() - k,
    {
        proof {
            assert(scopes@.take(k + 1).drop_last() =~= scopes@.take(k as int));
            assert(scopes@.take(k + 1).last() == scopes@[k as int]);
        }
        state.note_activation(&scopes[k], tokens, catalog);
        k += 1;
    }
    proof {
        assert(scopes@.take(scopes@.len() as int) =~= scopes@);
    }
    state.last_seen = now;
    let active = copy_ids(&state.active);
    Ok(session_scopes_of(catalog, active))
}

/// Whether a scope is one every context has without a file: `global`, a
/// machine's and a session's own scope.
pub open spec fn implicit_scope(id: Seq<char>) -> bool {
    scope_kind_of(id) != ScopeKind::Defined
}

/// The context after `scopes` were turned off in `before` at time `now`: it
/// works in the scopes it did, less the ones named, and nothing else changes.
pub open spec fn turned_off(before: ContextState, after: ContextState, scopes: Seq<String>, now: i64) -> bool {
    &&& set_of(after.active@) == set_of(before.active@).difference(set_of(scopes))
    &&& after.activated_at == before.activated_at
    &&& same_record(before, after)
    &&& after.last_seen == now
}

/// Turn `scopes` off in one context: it stops working in them, and nothing
/// happens to any memory.
///
/// Only the scopes named are turned off; one that another scope implies stays
/// off until something turns it on again, because a scope is a flag and the
/// context does not record what turned it on. `global`, the machine's and the
/// session's own scope make a context what it is, so a list naming one of
/// them turns none of the others off either.
pub fn session_scope_off(
    state: &mut ContextState,
    scopes: &Vec<String>,
    catalog: &Catalog,
    now: i64,
) -> (answer: Result<SessionScopes, OperationError>)
    requires
        old(state).well_formed(),
    ensures
        final(state).well_formed(),
        match answer {
            Ok(s) => {
                &&& scopes@.len() > 0
                &&& forall|i: int| 0 <= i < scopes@.len() ==> !implicit_scope(#[trigger] scopes@[i]@)
                &&& turned_off(*old(state), *final(state), scopes@, now)
                &&& s.active@ == final(state).active@
                &&& string_views(s.available@) == available_ids(catalog.scopes@, final(state).active@)
            },
            Err(OperationError::EmptyScopeList) => scopes@.len() == 0 && *final(state) == *old(state),
            Err(OperationError::ImplicitScope { id }) => {
                &&& *final(state) == *old(state)
                &&& exists|i: int| 0 <= i < scopes@.len() && id@ == scopes@[i]@ && implicit_scope(scopes@[i]@)
                    && forall|j: int| 0 <= j < i ==> !implicit_scope(#[trigger] scopes@[j]@)
            },
            Err(_) => false,
        },
{
    if scopes.len() == 0 {
        return Err(OperationError::EmptyScopeList);
    }
    let mut i: usize = 0;
    while i < scopes.len()
        invariant
            i <= scopes@.len(),
            *state == *old(state),
            state.well_formed(),
            forall|j: int| 0 <= j < i ==> !implicit_scope(#[trigger] scopes@[j]@),
        decreases scopes.len() - i,
    {
        if scope_kind(&scopes[i]) != ScopeKind::Defined {
            return Err(OperationError::ImplicitScope { id: scopes[i].clone() });
        }
        i += 1;
    }
    let ghost before = state.active@;
    let mut kept: Vec<String> = Vec::new();
    let mut k: usize = 0;
    while k < state.active.len()
        invariant
            k <= before.len(),
            *state == *old(state),
            state.well_formed(),
            state.active@ == before,
            strictly_sorted(string_views(before)),
            strictly_sorted(string_views(kept@)),
            set_of(kept@) == set_of(before.take(k as int)).difference(set_of(scopes@)),
            forall|j: int| 0 <= j < kept@.len() ==> exists|m: int| 0 <= m < k && (#[trigger] kept@[j])@ == before[m]@,
        decreases before.len() - k,
    {
        proof {
            lemma_set_of_take(before, k as int);
        }
        if !holds_string(scopes, &state.active[k]) {
            let ghost was = kept@;
            kept.push(state.active[k].clone());
            proof {
                assert forall|a: int, b: int| 0 <= a < b < kept@.len() implies seq_lt(
                    #[trigger] string_views(kept@)[a],
                    #[trigger] string_views(kept@)[b],
                ) by {
                    if b == kept@.len() - 1 {
                        assert(kept@[a] == was[a]);
                        let m = choose|m: int| 0 <= m < k && was[a]@ == before[m]@;
                        assert(seq_lt(string_views(before)[m], string_views(before)[k as int]));
                    } else {
                        assert(string_views(kept@)[a] == string_views(was)[a]);
                        assert(string_views(kept@)[b] == string_views(was)[b]);
                    }
                }
                assert forall|j: int| 0 <= j < kept@.len() implies exists|m: int| 0 <= m < k + 1 && (#[trigger] kept@[j])@ == before[m]@ by {
                    if j < was.len() {
                        assert(kept@[j] == was[j]);
                        let m = choose|m: int| 0 <= m < k && was[j]@ == before[m]@;
                    } else {
                        assert(kept@[j]@ == before[k as int]@);
                    }
                }
                lemma_set_of_push(was, state.active@[k as int]);
                assert(set_of(kept@) =~= set_of(before.take(k + 1)).difference(set_of(scopes@)));
            }
        } else {
            proof {
                assert(set_of(kept@) =~= set_of(before.take(k + 1)).difference(set_of(scopes@)));
                assert forall|j: int| 0 <= j < kept@.len() implies exists|m: int| 0 <= m < k + 1 && (#[trigger] kept@[j])@ == before[m]@ by {
                    let m = choose|m: int| 0 <= m < k && kept@[j]@ == before[m]@;
                }
            }
        }
        k += 1;
    }
    proof {
        assert(before.take(before.len() as int) =~= before);
    }
    state.active = kept;
    state.last_seen = now;
    let active = copy_ids(&state.active);
    Ok(session_scopes_of(catalog, active))
}

/// The context after it took over `source`'s scopes at time `now`: it works in
/// the scopes it did, every scope `source` works in, and `source`'s own
/// session scope, and nothing else changes.
pub open spec fn inherited(before: ContextState, after: ContextState, source: ContextState, from: ContextKey, now: i64) -> bool {
    &&& set_of(after.active@) == set_of(before.active@).union(set_of(source.active@)).insert(
        session_scope_id(from.machine@, from.session_id@),
    )
    &&& after.activated_at == before.activated_at
    &&& same_record(before, after)
    &&& after.last_seen == now
}

/// Take over another session's scopes, its own session scope among them, so
/// that its session memories are due here as well.
///
/// `source` is what the contexts on record hold for `from`; a session nobody
/// has seen is refused rather than taken for one with no scopes.
pub fn session_inherit(
    state: &mut ContextState,
    from: &ContextKey,
    source: Option<&ContextState>,
    catalog: &Catalog,
    now: i64,
) -> (answer: Result<SessionScopes, OperationError>)
    requires
        old(state).well_formed(),
    ensures
        final(state).well_formed(),
        match answer {
            Ok(s) => {
                &&& source is Some
                &&& inherited(*old(state), *final(state), *source.unwrap(), *from, now)
                &&& s.active@ == final(state).active@
                &&& string_views(s.available@) == available_ids(catalog.scopes@, final(state).active@)
            },
            Err(OperationError::UnknownSession { key }) => {
                &&& source is None
                &&& key@ == key_text(from@)
                &&& *final(state) == *old(state)
            },
            Err(_) => false,
        },
{
    let source = match source {
        Some(s) => s,
        None => return Err(OperationError::UnknownSession { key: from.to_string() }),
    };
    let ghost before = state.active@;
    let own = from.session_scope();
    let mut i: usize = 0;
    while i < source.active.len()
        invariant
            i <= source.active@.len(),
            strictly_sorted(string_views(state.active@)),
            state.delivered == old(state).delivered,
            state.activated_at == old(state).activated_at,
            same_record(*old(state), *state),
            state.last_seen == old(state).last_seen,
            old(state).well_formed(),
            set_of(state.active@) == set_of(before).union(set_of(source.active@.take(i as int))),
        decreases source.active.len() - i,
    {
        proof {
            lemma_set_of_take(source.active@, i as int);
        }
        sorted_insert(&mut state.active, &source.active[i]);
        proof {
            assert(set_of(state.active@) =~= set_of(before).union(set_of(source.active@.take(i + 1))));
        }
        i += 1;
    }
    proof {
        assert(source.active@.take(source.active@.len() as int) =~= source.active@);
    }
    sorted_insert(&mut state.active, &own);
    state.last_seen = now;
    let active = copy_ids(&state.active);
    Ok(session_scopes_of(catalog, active))
}

/// What a context holds as delivered after it wrote `ids` itself: a memory
/// the store holds after the write is held at that version, as if shown
/// there, and one the store no longer holds is forgotten.
pub open spec fn own_writes(
    map: Map<Seq<char>, crate::context::Shown>,
    ids: Seq<String>,
    catalog: Catalog,
) -> Map<Seq<char>, crate::context::Shown>
    decreases ids.len(),
{
    if ids.len() == 0 {
        map
    } else {
        let before = own_writes(map, ids.drop_last(), catalog);
        match catalog.memory_spec(ids.last()@) {
            Some(m) => before.insert(ids.last()@, crate::context::shown_for(m, None)),
            None => before.remove(ids.last()@),
        }
    }
}

/// Record in the context of a writer that it wrote `ids` itself, so that
/// neither a write nor a deletion is delivered back to it: the writer holds
/// what it wrote. Every other context keeps its own record and is delivered
/// the change as usual.
pub fn note_own_writes(state: &mut ContextState, ids: &Vec<String>, catalog: &Catalog, now: i64)
    requires
        old(state).well_formed(),
        catalog.well_formed(),
    ensures
        final(state).well_formed(),
        crate::context::delivered_map(final(state).delivered@) == own_writes(
            crate::context::delivered_map(old(state).delivered@),
            ids@,
            *catalog,
        ),
        final(state).active == old(state).active,
        final(state).activated_at == old(state).activated_at,
        same_record_but_delivered(*old(state), *final(state)),
        final(state).last_seen == now,
{
    let ghost start = crate::context::delivered_map(state.delivered@);
    let mut i: usize = 0;
    while i < ids.len()
        invariant
            catalog.well_formed(),
            i <= ids@.len(),
            state.well_formed(),
            state.active == old(state).active,
            state.activated_at == old(state).activated_at,
            same_record_but_delivered(*old(state), *state),
            state.last_seen == old(state).last_seen,
            start == crate::context::delivered_map(old(state).delivered@),
            crate::context::delivered_map(state.delivered@) == own_writes(start, ids@.take(i as int), *catalog),
        decreases ids.len() - i,
    {
        proof {
            assert(ids@.take(i + 1).drop_last() =~= ids@.take(i as int));
            assert(ids@.take(i + 1).last() == ids@[i as int]);
        }
        match catalog.find(&ids[i]) {
            Some(k) => {
                proof {
                    crate::context::lemma_memory_at(catalog, k as int);
                }
                state.note_shown(&catalog.memories[k], None);
            },
            None => {
                crate::context::remove_delivered(&mut state.delivered, &ids[i]);
            },
        }
        i += 1;
    }
    proof {
        assert(ids@.take(ids@.len() as int) =~= ids@);
    }
    state.last_seen = now;
}

/// What a write leaves as it was in the writer's context: its size, who it is
/// and what it is called.
pub open spec fn same_record_but_delivered(before: ContextState, after: ContextState) -> bool {
    &&& after.tokens == before.tokens
    &&& after.parent == before.parent
    &&& after.session_directory == before.session_directory
    &&& after.session_title == before.session_title
    &&& after.first_prompt == before.first_prompt
    &&& after.task == before.task
    &&& after.agent_type == before.agent_type
}

/// After a writer's own writes are noted, each id it wrote holds what the
/// store holds for it: the memory at its version as if shown there, or
/// nothing when the store no longer has it.
proof fn lemma_own_writes_hold(
    map: Map<Seq<char>, crate::context::Shown>,
    ids: Seq<String>,
    catalog: Catalog,
    x: Seq<char>,
)
    requires
        holds(ids, x),
    ensures
        match catalog.memory_spec(x) {
            Some(m) => own_writes(map, ids, catalog).dom().contains(x) && own_writes(map, ids, catalog)[x]
                == crate::context::shown_for(m, None),
            None => !own_writes(map, ids, catalog).dom().contains(x),
        },
    decreases ids.len(),
{
    if ids.last()@ != x {
        let i = choose|i: int| 0 <= i < ids.len() && ids[i]@ == x;
        assert(i < ids.len() - 1);
        assert(ids.drop_last()[i] == ids[i]);
        lemma_own_writes_hold(map, ids.drop_last(), catalog, x);
    }
}

/// Each withdrawal is of a memory the context holds as delivered.
proof fn lemma_retractions_are_held(
    catalog: &Catalog,
    active: Seq<String>,
    v: Seq<crate::context::Delivered>,
    j: int,
)
    requires
        0 <= j < crate::context::retractions(catalog, active, v).len(),
    ensures
        crate::context::has_entry(v, crate::context::retractions(catalog, active, v)[j].0),
    decreases v.len(),
{
    let before = crate::context::retractions(catalog, active, v.drop_last());
    if j < before.len() {
        lemma_retractions_are_held(catalog, active, v.drop_last(), j);
        let i = choose|i: int| 0 <= i < v.drop_last().len() && v.drop_last()[i].id@ == before[j].0;
        assert(v.drop_last()[i] == v[i]);
    } else {
        assert(v[v.len() - 1] == v.last());
    }
}

/// The session tools never take a context out of `global`, its machine's or
/// its session's own scope: turning scopes on and inheriting only add scopes,
/// and turning scopes off is made only of scopes that are not one of these.
pub proof fn lemma_session_tools_keep_the_implicit_scopes(
    before: ContextState,
    after: ContextState,
    scopes: Seq<String>,
    catalog: Catalog,
    source: ContextState,
    from: ContextKey,
    now: i64,
    id: Seq<char>,
)
    requires
        set_of(before.active@).contains(id),
        implicit_scope(id),
        turned_on(before, after, scopes, catalog, now)
            || (turned_off(before, after, scopes, now) && forall|i: int|
            0 <= i < scopes.len() ==> !implicit_scope(#[trigger] scopes[i]@))
            || inherited(before, after, source, from, now),
    ensures
        set_of(after.active@).contains(id),
{
    if turned_off(before, after, scopes, now) && forall|i: int|
        0 <= i < scopes.len() ==> !implicit_scope(#[trigger] scopes[i]@) {
        if set_of(scopes).contains(id) {
            let i = choose|i: int| 0 <= i < scopes.len() && scopes[i]@ == id;
            assert(!implicit_scope(scopes[i]@));
        }
    }
}

/// A writer is not delivered its own write: once its writes are noted, a
/// memory it wrote is owed nothing, at any context size and whatever text it
/// is said to have been given before, and a memory it deleted is not
/// withdrawn from it.
pub proof fn lemma_own_writes_are_not_delivered_back(
    catalog: &Catalog,
    before: &ContextState,
    after: &ContextState,
    ids: Seq<String>,
    tokens: Option<u64>,
    previous: Seq<crate::context::PreviousText>,
)
    requires
        catalog.well_formed(),
        after.well_formed(),
        crate::context::delivered_map(after.delivered@) == own_writes(
            crate::context::delivered_map(before.delivered@),
            ids,
            *catalog,
        ),
    ensures
        forall|k: int| 0 <= k < catalog.memories@.len() && holds(ids, catalog.memories@[k].id@) ==> crate::context::owed(
            catalog,
            after,
            tokens,
            previous,
            #[trigger] catalog.memories@[k],
        ) == crate::context::Owed::Nothing,
        forall|x: Seq<char>, j: int| #![trigger holds(ids, x), crate::context::retractions(catalog, after.active@, after.delivered@)[j]] holds(ids, x) && !catalog.has_memory(x) && 0 <= j < crate::context::retractions(
            catalog,
            after.active@,
            after.delivered@,
        ).len() ==> crate::context::retractions(catalog, after.active@, after.delivered@)[j].0 != x,
{
    let start = crate::context::delivered_map(before.delivered@);
    assert forall|k: int| 0 <= k < catalog.memories@.len() && holds(ids, catalog.memories@[k].id@) implies crate::context::owed(
        catalog,
        after,
        tokens,
        previous,
        #[trigger] catalog.memories@[k],
    ) == crate::context::Owed::Nothing by {
        let m = catalog.memories@[k];
        crate::context::lemma_memory_at(catalog, k);
        lemma_own_writes_hold(start, ids, *catalog, m.id@);
        let held = crate::context::delivered_map(after.delivered@);
        assert(held.dom().contains(m.id@));
        assert(crate::context::has_entry(after.delivered@, m.id@));
        let i = choose|i: int| 0 <= i < after.delivered@.len() && after.delivered@[i].id@ == m.id@;
        crate::context::lemma_shown_at(after.delivered@, i);
        assert(held[m.id@] == crate::context::shown_of(after.delivered@, m.id@).unwrap());
    }
    assert forall|x: Seq<char>, j: int| #![trigger holds(ids, x), crate::context::retractions(catalog, after.active@, after.delivered@)[j]] holds(ids, x) && !catalog.has_memory(x) && 0 <= j < crate::context::retractions(
        catalog,
        after.active@,
        after.delivered@,
    ).len() implies crate::context::retractions(catalog, after.active@, after.delivered@)[j].0 != x by {
        assert(catalog.memory_spec(x) is None);
        lemma_own_writes_hold(start, ids, *catalog, x);
        lemma_retractions_are_held(catalog, after.active@, after.delivered@, j);
        if crate::context::retractions(catalog, after.active@, after.delivered@)[j].0 == x {
            assert(crate::context::delivered_map(after.delivered@).dom().contains(x));
        }
    }
}

/// The statistics row one session tool call is recorded as, whatever it did;
/// the caller adds the time.
#[derive(Clone, Debug)]
pub struct ToolCallRow {
    pub tool: String,
    pub session_key: String,
    /// The scopes the call named, joined with `, `; `None` when it named none.
    pub scope: Option<String>,
    /// Whether the call did what it was asked.
    pub ok: bool,
}

/// The scopes a call named, as its row records them.
pub open spec fn named_scopes(scopes: Seq<String>) -> Option<Seq<char>> {
    let joined = crate::text::join(string_views(scopes), ", "@);
    if joined.len() == 0 {
        None
    } else {
        Some(joined)
    }
}

/// The ids of `scopes` joined with `, `.
fn joined_ids(scopes: &Vec<String>) -> (out: Vec<char>)
    ensures
        out@ == crate::text::join(string_views(scopes@), ", "@),
{
    let mut out: Vec<char> = Vec::new();
    let mut i: usize = 0;
    while i < scopes.len()
        invariant
            i <= scopes@.len(),
            out@ == crate::text::join(string_views(scopes@).take(i as int), ", "@),
        decreases scopes.len() - i,
    {
        let ghost parts = string_views(scopes@).take(i + 1);
        assert(parts.drop_last() =~= string_views(scopes@).take(i as int));
        assert(parts.last() == scopes@[i as int]@);
        if i > 0 {
            crate::text::push_str(&mut out, ", ");
        } else {
            assert(out@ =~= Seq::<char>::empty());
        }
        crate::text::push_str(&mut out, scopes[i].as_str());
        if i == 0 {
            assert(out@ =~= parts[0]);
        }
        i += 1;
    }
    assert(string_views(scopes@).take(scopes@.len() as int) =~= string_views(scopes@));
    out
}

/// The row that records one call of a session tool: the tool, the session's
/// key, the scopes the call named, and whether it did what it was asked. A
/// refused call is recorded too, with `ok` false.
pub fn tool_call_row(tool: &str, key: &ContextKey, scopes: &Vec<String>, ok: bool) -> (row: ToolCallRow)
    ensures
        row.tool@ == tool@,
        row.session_key@ == key_text(key@),
        opt_view(row.scope) == named_scopes(scopes@),
        row.ok == ok,
{
    let named = joined_ids(scopes);
    let scope = if named.len() == 0 {
        None
    } else {
        Some(crate::text::string_of(&named))
    };
    ToolCallRow { tool: tool.to_string(), session_key: key.to_string(), scope, ok }
}

} // verus!
