//! Scope ids and the ids of the three scopes every context has without being
//! told: `global`, `machine:<name>` and `session:<machine>/<session-id>`.
use vstd::prelude::*;

use crate::text::{push_str, string_of};

verus! {

/// `global`.
pub open spec fn global_id() -> Seq<char> {
    seq!['g', 'l', 'o', 'b', 'a', 'l']
}

/// `machine:`.
pub open spec fn machine_prefix() -> Seq<char> {
    seq!['m', 'a', 'c', 'h', 'i', 'n', 'e', ':']
}

/// `session:`.
pub open spec fn session_prefix() -> Seq<char> {
    seq!['s', 'e', 's', 's', 'i', 'o', 'n', ':']
}

/// The implicit scope of every session on one machine.
pub open spec fn machine_id(machine: Seq<char>) -> Seq<char> {
    machine_prefix() + machine
}

/// The implicit scope of one session, its private silo.
pub open spec fn session_scope_id(machine: Seq<char>, session_id: Seq<char>) -> Seq<char> {
    session_prefix() + machine + seq!['/'] + session_id
}

/// The kind of scope an id names.
#[derive(Clone, Copy, Debug, PartialEq, Eq, Structural)]
pub enum ScopeKind {
    Global,
    Machine,
    Session,
    Defined,
}

/// The kind of scope `id` names, read from its form.
pub open spec fn scope_kind_of(id: Seq<char>) -> ScopeKind {
    if id == global_id() {
        ScopeKind::Global
    } else if id.len() >= 8 && id.take(8) == machine_prefix() {
        ScopeKind::Machine
    } else if id.len() >= 8 && id.take(8) == session_prefix() {
        ScopeKind::Session
    } else {
        ScopeKind::Defined
    }
}

/// The id `global`.
pub fn global() -> (id: String)
    ensures
        id@ == global_id(),
{
    let mut out: Vec<char> = Vec::new();
    proof {
        reveal_strlit("global");
    }
    push_str(&mut out, "global");
    string_of(&out)
}

/// The implicit scope of `machine`.
pub fn machine(name: &str) -> (id: String)
    ensures
        id@ == machine_id(name@),
{
    let mut out: Vec<char> = Vec::new();
    proof {
        reveal_strlit("machine:");
    }
    push_str(&mut out, "machine:");
    push_str(&mut out, name);
    string_of(&out)
}

/// The implicit scope of one session.
pub fn session(machine_name: &str, session_id: &str) -> (id: String)
    ensures
        id@ == session_scope_id(machine_name@, session_id@),
{
    let mut out: Vec<char> = Vec::new();
    proof {
        reveal_strlit("session:");
        reveal_strlit("/");
    }
    push_str(&mut out, "session:");
    push_str(&mut out, machine_name);
    push_str(&mut out, "/");
    push_str(&mut out, session_id);
    string_of(&out)
}

/// Whether `a` starts with the eight characters of `prefix`.
fn starts_with8(a: &Vec<char>, prefix: &str) -> (yes: bool)
    requires
        prefix@.len() == 8,
    ensures
        yes == (a@.len() >= 8 && a@.take(8) == prefix@),
{
    if a.len() < 8 {
        return false;
    }
    let p = crate::text::chars_of(prefix);
    let mut i: usize = 0;
    while i < 8
        invariant
            a@.len() >= 8,
            p@ == prefix@,
            p@.len() == 8,
            i <= 8,
            forall|j: int| 0 <= j < i ==> a@[j] == p@[j],
        decreases 8 - i,
    {
        if a[i] != p[i] {
            return false;
        }
        i += 1;
    }
    assert(a@.take(8) =~= p@);
    true
}

/// The kind of scope `id` names.
pub fn scope_kind(id: &String) -> (kind: ScopeKind)
    ensures
        kind == scope_kind_of(id@),
{
    let chars = crate::text::chars_of(id.as_str());
    let g = global();
    if *id == g {
        return ScopeKind::Global;
    }
    proof {
        reveal_strlit("machine:");
        reveal_strlit("session:");
        assert("machine:"@ =~= machine_prefix());
        assert("session:"@ =~= session_prefix());
    }
    if starts_with8(&chars, "machine:") {
        ScopeKind::Machine
    } else if starts_with8(&chars, "session:") {
        ScopeKind::Session
    } else {
        ScopeKind::Defined
    }
}

} // verus!
