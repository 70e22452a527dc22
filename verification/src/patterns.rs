//! Triggers: which scopes a text turns on, and whether a pattern can be one.
use vstd::prelude::*;

use crate::catalog::{Catalog, ScopeEntry, Trigger};
use crate::events::{opt_view, TriggerField};

verus! {

/// Whether the regular expression `pattern` matches somewhere in `text`;
/// false for a pattern that does not compile.
pub uninterp spec fn regex_matches(pattern: Seq<char>, text: Seq<char>) -> bool;

/// Why `pattern` is not a regular expression, or `None` when it is one.
pub uninterp spec fn pattern_error(pattern: Seq<char>) -> Option<Seq<char>>;

/// Whether `pattern` matches somewhere in `text`.
///
/// Trusted: `regex::Regex::new` and `Regex::is_match`, which compile the
/// pattern and report whether it matches anywhere in the text. A pattern that
/// does not compile matches nothing here; which patterns compile and what a
/// compiled one matches is left to the `regex` crate and named, not spelled
/// out.
#[verifier::external_body]
fn pattern_matches(pattern: &str, text: &str) -> (matched: bool)
    ensures
        matched == regex_matches(pattern@, text@),
{
    match regex::Regex::new(pattern) {
        Ok(re) => re.is_match(text),
        Err(_) => false,
    }
}

/// Why `pattern` does not compile, as the `regex` crate words it.
///
/// Trusted: `regex::Regex::new`, whose error, written out with `to_string`,
/// says what is wrong with the pattern; `None` when it compiles.
#[verifier::external_body]
fn regex_error(pattern: &str) -> (error: Option<String>)
    ensures
        opt_view(error) == pattern_error(pattern@),
{
    match regex::Regex::new(pattern) {
        Ok(_) => None,
        Err(e) => Some(e.to_string()),
    }
}

/// The name a field goes by in a scope file and in the statistics.
pub open spec fn field_name(field: TriggerField) -> Seq<char> {
    match field {
        TriggerField::UserMessage => "user_message"@,
        TriggerField::AssistantMessage => "assistant_message"@,
        TriggerField::ToolName => "tool_name"@,
        TriggerField::ToolInput => "tool_input"@,
        TriggerField::ToolResult => "tool_result"@,
        TriggerField::ShellDirectory => "shell_directory"@,
        TriggerField::SessionDirectory => "session_directory"@,
    }
}

impl TriggerField {
    /// The name this field goes by in a scope file and in the statistics.
    pub fn as_str(self) -> (name: &'static str)
        ensures
            name@ == field_name(self),
    {
        match self {
            TriggerField::UserMessage => "user_message",
            TriggerField::AssistantMessage => "assistant_message",
            TriggerField::ToolName => "tool_name",
            TriggerField::ToolInput => "tool_input",
            TriggerField::ToolResult => "tool_result",
            TriggerField::ShellDirectory => "shell_directory",
            TriggerField::SessionDirectory => "session_directory",
        }
    }
}

/// Whether trigger `t` fires on `text` of `field` in a session on `machine`:
/// it is matched against that field or against every field, it is limited to
/// no machine or to this one, and its pattern matches.
pub open spec fn trigger_fires(t: Trigger, field: TriggerField, text: Seq<char>, machine: Seq<char>) -> bool {
    &&& (t.on is None || t.on == Some(field))
    &&& match t.machine {
        Some(m) => m@ == machine,
        None => true,
    }
    &&& regex_matches(t.pattern@, text)
}

/// One trigger that fired: the scope it turns on, the field of the text it
/// matched, and its pattern.
#[derive(Clone, Debug)]
pub struct TriggerHit {
    pub scope: String,
    pub field: TriggerField,
    pub pattern: String,
}

/// A hit as plain values.
pub open spec fn hit_view(h: TriggerHit) -> (Seq<char>, TriggerField, Seq<char>) {
    (h.scope@, h.field, h.pattern@)
}

/// The hits of `triggers`, all of scope `scope`, on one text, in order.
pub open spec fn hits_of(scope: Seq<char>, triggers: Seq<Trigger>, field: TriggerField, text: Seq<char>, machine: Seq<char>) -> Seq<(Seq<char>, TriggerField, Seq<char>)>
    decreases triggers.len(),
{
    if triggers.len() == 0 {
        Seq::empty()
    } else {
        let before = hits_of(scope, triggers.drop_last(), field, text, machine);
        let t = triggers.last();
        if trigger_fires(t, field, text, machine) {
            before.push((scope, field, t.pattern@))
        } else {
            before
        }
    }
}

/// The hits of every trigger of `scopes` on one text, scope by scope.
pub open spec fn fired(scopes: Seq<ScopeEntry>, field: TriggerField, text: Seq<char>, machine: Seq<char>) -> Seq<(Seq<char>, TriggerField, Seq<char>)>
    decreases scopes.len(),
{
    if scopes.len() == 0 {
        Seq::empty()
    } else {
        fired(scopes.drop_last(), field, text, machine) + hits_of(
            scopes.last().id@,
            scopes.last().triggers@,
            field,
            text,
            machine,
        )
    }
}

/// The views of a list of hits.
pub open spec fn hit_views(v: Seq<TriggerHit>) -> Seq<(Seq<char>, TriggerField, Seq<char>)> {
    v.map_values(|h: TriggerHit| hit_view(h))
}

/// Every trigger of the store that fires on `text` of `field` in a session on
/// `machine`, scope by scope in the catalog's order and trigger by trigger in
/// the order its file gives them.
pub fn fire(catalog: &Catalog, field: TriggerField, text: &str, machine: &str) -> (hits: Vec<TriggerHit>)
    ensures
        hit_views(hits@) == fired(catalog.scopes@, field, text@, machine@),
{
    let mut hits: Vec<TriggerHit> = Vec::new();
    let mut i: usize = 0;
    while i < catalog.scopes.len()
        invariant
            i <= catalog.scopes@.len(),
            hit_views(hits@) == fired(catalog.scopes@.take(i as int), field, text@, machine@),
        decreases catalog.scopes.len() - i,
    {
        let entry = &catalog.scopes[i];
        let ghost before = hit_views(hits@);
        proof {
            assert(catalog.scopes@.take(i + 1).drop_last() =~= catalog.scopes@.take(i as int));
            assert(catalog.scopes@.take(i + 1).last() == *entry);
        }
        let mut k: usize = 0;
        while k < entry.triggers.len()
            invariant
                k <= entry.triggers@.len(),
                hit_views(hits@) == before + hits_of(entry.id@, entry.triggers@.take(k as int), field, text@, machine@),
            decreases entry.triggers.len() - k,
        {
            let t = &entry.triggers[k];
            proof {
                assert(entry.triggers@.take(k + 1).drop_last() =~= entry.triggers@.take(k as int));
                assert(entry.triggers@.take(k + 1).last() == *t);
            }
            let on_field = match t.on {
                Some(f) => f == field,
                None => true,
            };
            let on_machine = match &t.machine {
                Some(m) => {
                    let a = crate::text::chars_of(m.as_str());
                    let b = crate::text::chars_of(machine);
                    crate::text::same_chars(&a, &b)
                },
                None => true,
            };
            if on_field && on_machine && pattern_matches(t.pattern.as_str(), text) {
                let ghost mid = hits@;
                hits.push(TriggerHit { scope: entry.id.clone(), field, pattern: t.pattern.clone() });
                assert(hit_views(hits@) =~= hit_views(mid).push((entry.id@, field, t.pattern@)));
            }
            k += 1;
        }
        assert(entry.triggers@.take(entry.triggers@.len() as int) =~= entry.triggers@);
        i += 1;
    }
    assert(catalog.scopes@.take(catalog.scopes@.len() as int) =~= catalog.scopes@);
    hits
}

/// A pattern to check.
#[derive(Clone, Debug)]
pub struct PatternRequest {
    pub pattern: String,
}

/// Whether a pattern can be a trigger, and why not when it cannot.
#[derive(Clone, Debug)]
pub struct PatternValidity {
    pub ok: bool,
    pub error: Option<String>,
}

/// Whether a pattern can be a trigger: the same check a scope file's patterns
/// are held to, and the message a refused write would carry.
pub fn validate_pattern(request: &PatternRequest) -> (validity: PatternValidity)
    ensures
        validity.ok == (pattern_error(request.pattern@) is None),
        opt_view(validity.error) == pattern_error(request.pattern@),
{
    match regex_error(request.pattern.as_str()) {
        None => PatternValidity { ok: true, error: None },
        Some(e) => PatternValidity { ok: false, error: Some(e) },
    }
}

/// A text to match against the store's triggers.
#[derive(Clone, Debug)]
pub struct TriggerTestRequest {
    pub field: TriggerField,
    pub text: String,
    /// The machine the text is supposed to come from, which decides whether a
    /// trigger limited to one machine applies.
    pub machine: String,
}

/// One trigger that matched in a trigger test.
#[derive(Clone, Debug)]
pub struct TriggerMatch {
    pub scope_id: String,
    pub field: TriggerField,
    pub pattern: String,
}

/// The result of a trigger test.
#[derive(Clone, Debug)]
pub struct TriggerTestResult {
    pub fired: Vec<TriggerMatch>,
}

/// Which triggers a text fires, without turning anything on.
pub fn trigger_test(catalog: &Catalog, request: &TriggerTestRequest) -> (result: TriggerTestResult)
    ensures
        result.fired@.map_values(|m: TriggerMatch| (m.scope_id@, m.field, m.pattern@)) == fired(
            catalog.scopes@,
            request.field,
            request.text@,
            request.machine@,
        ),
{
    let hits = fire(catalog, request.field, request.text.as_str(), request.machine.as_str());
    let mut out: Vec<TriggerMatch> = Vec::new();
    let mut i: usize = 0;
    while i < hits.len()
        invariant
            i <= hits@.len(),
            out@.map_values(|m: TriggerMatch| (m.scope_id@, m.field, m.pattern@)) == hit_views(hits@).take(i as int),
        decreases hits.len() - i,
    {
        let h = &hits[i];
        let ghost before = out@;
        out.push(TriggerMatch { scope_id: h.scope.clone(), field: h.field, pattern: h.pattern.clone() });
        assert(out@.map_values(|m: TriggerMatch| (m.scope_id@, m.field, m.pattern@)) =~= before.map_values(
            |m: TriggerMatch| (m.scope_id@, m.field, m.pattern@),
        ).push(hit_view(*h)));
        assert(hit_views(hits@).take(i + 1) =~= hit_views(hits@).take(i as int).push(hit_view(hits@[i as int])));
        i += 1;
    }
    assert(hit_views(hits@).take(hits@.len() as int) =~= hit_views(hits@));
    TriggerTestResult { fired: out }
}

/// Every hit of one scope's triggers comes from one of its triggers that fires.
proof fn lemma_hits_come_from_firing_triggers(
    scope: Seq<char>,
    triggers: Seq<Trigger>,
    field: TriggerField,
    text: Seq<char>,
    machine: Seq<char>,
)
    ensures
        forall|k: int| 0 <= k < hits_of(scope, triggers, field, text, machine).len() ==> exists|j: int|
            0 <= j < triggers.len() && trigger_fires(#[trigger] triggers[j], field, text, machine)
                && #[trigger] hits_of(scope, triggers, field, text, machine)[k] == (scope, field, triggers[j].pattern@),
    decreases triggers.len(),
{
    if triggers.len() > 0 {
        let front = triggers.drop_last();
        lemma_hits_come_from_firing_triggers(scope, front, field, text, machine);
        let before = hits_of(scope, front, field, text, machine);
        assert forall|k: int| 0 <= k < hits_of(scope, triggers, field, text, machine).len() implies exists|j: int|
            0 <= j < triggers.len() && trigger_fires(#[trigger] triggers[j], field, text, machine)
                && #[trigger] hits_of(scope, triggers, field, text, machine)[k] == (scope, field, triggers[j].pattern@) by {
            if k < before.len() {
                let j = choose|j: int|
                    0 <= j < front.len() && trigger_fires(#[trigger] front[j], field, text, machine) && before[k] == (
                        scope,
                        field,
                        front[j].pattern@,
                    );
                assert(triggers[j] == front[j]);
                assert(hits_of(scope, triggers, field, text, machine)[k] == before[k]);
            } else {
                assert(triggers[triggers.len() - 1] == triggers.last());
            }
        }
    }
}

/// A trigger fires only on a text it is matched against: a trigger limited
/// to one field never fires on another field's text, one limited to one
/// machine never fires in a session on another, and every hit is a pattern
/// that matches the text, of a trigger of the scope the hit turns on.
pub proof fn lemma_a_trigger_fires_only_where_it_applies(
    scopes: Seq<ScopeEntry>,
    field: TriggerField,
    text: Seq<char>,
    machine: Seq<char>,
)
    ensures
        forall|k: int| 0 <= k < fired(scopes, field, text, machine).len() ==> exists|i: int, j: int| {
            &&& 0 <= i < scopes.len()
            &&& 0 <= j < scopes[i].triggers@.len()
            &&& #[trigger] fired(scopes, field, text, machine)[k] == (scopes[i].id@, field, scopes[i].triggers@[j].pattern@)
            &&& (scopes[i].triggers@[j].on is None || scopes[i].triggers@[j].on == Some(field))
            &&& (scopes[i].triggers@[j].machine is None || scopes[i].triggers@[j].machine->0@ == machine)
            &&& regex_matches(scopes[i].triggers@[j].pattern@, text)
        },
    decreases scopes.len(),
{
    if scopes.len() > 0 {
        let front = scopes.drop_last();
        let last = scopes.last();
        lemma_a_trigger_fires_only_where_it_applies(front, field, text, machine);
        lemma_hits_come_from_firing_triggers(last.id@, last.triggers@, field, text, machine);
        let all = fired(scopes, field, text, machine);
        let before = fired(front, field, text, machine);
        let mine = hits_of(last.id@, last.triggers@, field, text, machine);
        assert forall|k: int| 0 <= k < all.len() implies exists|i: int, j: int| {
            &&& 0 <= i < scopes.len()
            &&& 0 <= j < scopes[i].triggers@.len()
            &&& #[trigger] all[k] == (scopes[i].id@, field, scopes[i].triggers@[j].pattern@)
            &&& (scopes[i].triggers@[j].on is None || scopes[i].triggers@[j].on == Some(field))
            &&& (scopes[i].triggers@[j].machine is None || scopes[i].triggers@[j].machine->0@ == machine)
            &&& regex_matches(scopes[i].triggers@[j].pattern@, text)
        } by {
            if k < before.len() {
                assert(all[k] == before[k]);
                let (i, j) = choose|i: int, j: int| {
                    &&& 0 <= i < front.len()
                    &&& 0 <= j < front[i].triggers@.len()
                    &&& #[trigger] before[k] == (front[i].id@, field, front[i].triggers@[j].pattern@)
                    &&& (front[i].triggers@[j].on is None || front[i].triggers@[j].on == Some(field))
                    &&& (front[i].triggers@[j].machine is None || front[i].triggers@[j].machine->0@ == machine)
                    &&& regex_matches(front[i].triggers@[j].pattern@, text)
                };
                assert(scopes[i] == front[i]);
            } else {
                let kk = k - before.len();
                assert(all[k] == mine[kk]);
                let j = choose|j: int|
                    0 <= j < last.triggers@.len() && trigger_fires(#[trigger] last.triggers@[j], field, text, machine)
                        && mine[kk] == (last.id@, field, last.triggers@[j].pattern@);
                let i = scopes.len() - 1;
                assert(scopes[i] == last);
                let t = last.triggers@[j];
                assert(t.machine is None || t.machine->0@ == machine);
            }
        }
    }
}

} // verus!
