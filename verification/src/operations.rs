//! What the API and the MCP tools read out of one catalog snapshot: the
//! memory index, the scopes, and the choice a write makes before it is sent.
use vstd::prelude::*;

use crate::catalog::{holds, holds_string, string_views, Catalog, MemoryEntry, MemoryKind, ScopeEntry, Trigger};
use crate::events::opt_view;
use crate::params::{kind_of, MemoryIndexParams};
use crate::routes::MemoryFilter;
use crate::scopes::{scope_kind, scope_kind_of, ScopeKind};
use crate::text::{decimal, push_str, string_of};

verus! {

/// One line of the memory index.
#[derive(Clone, Debug)]
pub struct MemorySummary {
    pub id: String,
    pub name: String,
    pub title: String,
    pub description: String,
    pub kind: MemoryKind,
    pub scopes: Vec<String>,
    pub source: String,
    /// ISO 8601, or absent when the file carries no `modified` stamp.
    pub modified: Option<String>,
    /// The blob id of the file, which a write sends back as `base_version`.
    pub version: String,
}

/// Whether `s` is the index line of memory `e`.
pub open spec fn summarizes(s: MemorySummary, e: MemoryEntry) -> bool {
    &&& s.id@ == e.id@
    &&& s.name@ == e.name@
    &&& s.title@ == e.title@
    &&& s.description@ == e.description@
    &&& s.kind == e.kind
    &&& string_views(s.scopes@) == string_views(e.scopes@)
    &&& s.source@ == e.source@
    &&& opt_view(s.modified) == opt_view(e.modified)
    &&& s.version@ == e.version@
}

/// Whether `summaries` are the index lines of `entries`, one for one.
pub open spec fn summarize_all(summaries: Seq<MemorySummary>, entries: Seq<MemoryEntry>) -> bool {
    summaries.len() == entries.len() && forall|i: int|
        0 <= i < entries.len() ==> summarizes(#[trigger] summaries[i], entries[i])
}

/// A copy of a list of strings.
pub fn copy_strings(v: &Vec<String>) -> (out: Vec<String>)
    ensures
        string_views(out@) == string_views(v@),
{
    let mut out: Vec<String> = Vec::new();
    let mut i: usize = 0;
    while i < v.len()
        invariant
            i <= v@.len(),
            string_views(out@) == string_views(v@.take(i as int)),
        decreases v.len() - i,
    {
        out.push(v[i].clone());
        assert(string_views(v@.take(i + 1)) =~= string_views(v@.take(i as int)).push(v@[i as int]@));
        i += 1;
    }
    assert(v@.take(v@.len() as int) =~= v@);
    out
}

/// The index line of one memory.
fn memory_summary(entry: &MemoryEntry) -> (summary: MemorySummary)
    ensures
        summarizes(summary, *entry),
{
    MemorySummary {
        id: entry.id.clone(),
        name: entry.name.clone(),
        title: entry.title.clone(),
        description: entry.description.clone(),
        kind: entry.kind,
        scopes: copy_strings(&entry.scopes),
        source: entry.source.clone(),
        modified: crate::context::copy_text(&entry.modified),
        version: entry.version.clone(),
    }
}

/// Whether memory `e` is one the filter asks for: of its kind when it names
/// one, carrying its scope when it names one.
pub open spec fn filter_matches(f: MemoryFilter, e: MemoryEntry) -> bool {
    &&& match f.kind {
        Some(k) => e.kind == k,
        None => true,
    }
    &&& match f.scope {
        Some(s) => holds(e.scopes@, s@),
        None => true,
    }
}

impl MemoryFilter {
    /// Whether `entry` is one this filter asks for.
    pub fn matches(&self, entry: &MemoryEntry) -> (wanted: bool)
        ensures
            wanted == filter_matches(*self, *entry),
    {
        if let Some(kind) = self.kind {
            if entry.kind != kind {
                return false;
            }
        }
        if let Some(scope) = &self.scope {
            if !holds_string(&entry.scopes, scope) {
                return false;
            }
        }
        true
    }
}

/// The memory index, ordered by id: one line for each memory the filter asks
/// for, in the catalog's order.
pub fn memory_index(catalog: &Catalog, filter: &MemoryFilter) -> (summaries: Vec<MemorySummary>)
    ensures
        summarize_all(summaries@, catalog.memories@.filter(|e: MemoryEntry| filter_matches(*filter, e))),
{
    let ghost pick = |e: MemoryEntry| filter_matches(*filter, e);
    let mut out: Vec<MemorySummary> = Vec::new();
    let mut i: usize = 0;
    while i < catalog.memories.len()
        invariant
            i <= catalog.memories@.len(),
            pick == (|e: MemoryEntry| filter_matches(*filter, e)),
            summarize_all(out@, catalog.memories@.take(i as int).filter(pick)),
        decreases catalog.memories.len() - i,
    {
        let entry = &catalog.memories[i];
        proof {
            let before = catalog.memories@.take(i as int);
            assert(catalog.memories@.take(i + 1) =~= before.push(*entry));
            crate::text::lemma_filter_push(before, pick, *entry);
        }
        if filter.matches(entry) {
            let summary = memory_summary(entry);
            out.push(summary);
        }
        i += 1;
    }
    assert(catalog.memories@.take(catalog.memories@.len() as int) =~= catalog.memories@);
    out
}

/// Whether a memory carries at least one of the scopes in `wanted`.
pub open spec fn carries_any(e: MemoryEntry, wanted: Seq<String>) -> bool {
    exists|i: int| 0 <= i < e.scopes@.len() && holds(wanted, #[trigger] e.scopes@[i]@)
}

/// Whether the `memory_index` tool lists memory `e`: of the kind asked for,
/// and carrying one of the scopes asked for when scopes were given.
pub open spec fn tool_lists(params: MemoryIndexParams, e: MemoryEntry) -> bool {
    &&& match params.kind {
        Some(k) => e.kind == kind_of(k),
        None => true,
    }
    &&& match params.scopes {
        Some(wanted) => carries_any(e, wanted@),
        None => true,
    }
}

/// Whether a summary carries at least one of the scopes in `wanted`.
fn summary_carries_any(summary: &MemorySummary, wanted: &Vec<String>) -> (carries: bool)
    ensures
        carries == (exists|i: int| 0 <= i < summary.scopes@.len() && holds(wanted@, #[trigger] summary.scopes@[i]@)),
{
    let mut i: usize = 0;
    while i < summary.scopes.len()
        invariant
            i <= summary.scopes@.len(),
            forall|j: int| 0 <= j < i ==> !holds(wanted@, #[trigger] summary.scopes@[j]@),
        decreases summary.scopes.len() - i,
    {
        if holds_string(wanted, &summary.scopes[i]) {
            return true;
        }
        i += 1;
    }
    false
}

/// The `memory_index` tool's list: the index of the kind asked for, kept to
/// the memories carrying one of the scopes asked for when scopes were given.
pub fn memory_index_for(catalog: &Catalog, params: &MemoryIndexParams) -> (summaries: Vec<MemorySummary>)
    ensures
        summarize_all(summaries@, catalog.memories@.filter(|e: MemoryEntry| tool_lists(*params, e))),
{
    let ghost pick = |e: MemoryEntry| tool_lists(*params, e);
    let mut out: Vec<MemorySummary> = Vec::new();
    let mut i: usize = 0;
    while i < catalog.memories.len()
        invariant
            i <= catalog.memories@.len(),
            pick == (|e: MemoryEntry| tool_lists(*params, e)),
            summarize_all(out@, catalog.memories@.take(i as int).filter(pick)),
        decreases catalog.memories.len() - i,
    {
        let entry = &catalog.memories[i];
        proof {
            let before = catalog.memories@.take(i as int);
            assert(catalog.memories@.take(i + 1) =~= before.push(*entry));
            crate::text::lemma_filter_push(before, pick, *entry);
        }
        let kind_ok = match params.kind {
            Some(k) => entry.kind == k.memory_kind(),
            None => true,
        };
        if kind_ok {
            let summary = memory_summary(entry);
            let scope_ok = match &params.scopes {
                Some(wanted) => {
                    let carries = summary_carries_any(&summary, wanted);
                    proof {
                        assert(summary.scopes@.len() == string_views(summary.scopes@).len());
                        assert(entry.scopes@.len() == string_views(entry.scopes@).len());
                        if carries {
                            let j = choose|j: int| 0 <= j < summary.scopes@.len() && holds(wanted@, #[trigger] summary.scopes@[j]@);
                            assert(summary.scopes@[j]@ == string_views(summary.scopes@)[j]);
                            assert(entry.scopes@[j]@ == string_views(entry.scopes@)[j]);
                            assert(holds(wanted@, entry.scopes@[j]@));
                        } else {
                            assert forall|j: int| 0 <= j < entry.scopes@.len() implies !holds(wanted@, #[trigger] entry.scopes@[j]@) by {
                                assert(summary.scopes@[j]@ == string_views(summary.scopes@)[j]);
                                assert(entry.scopes@[j]@ == string_views(entry.scopes@)[j]);
                            }
                        }
                    }
                    carries
                },
                None => true,
            };
            if scope_ok {
                out.push(summary);
            }
        }
        i += 1;
    }
    assert(catalog.memories@.take(catalog.memories@.len() as int) =~= catalog.memories@);
    out
}

/// Whether a write creates a document or replaces one.
#[derive(Clone, Copy, Debug, PartialEq, Eq, Structural)]
pub enum WriteMode {
    Create,
    Update,
}

/// What a `memory_put` without a version is: a creation only where there is
/// nothing to overwrite; at an id that exists it is an update missing its
/// version, which the write then refuses rather than overwriting blind.
pub fn write_mode(catalog: &Catalog, id: &String, base_version: &Option<String>) -> (mode: WriteMode)
    ensures
        mode == (if base_version.is_none() && !catalog.has_memory(id@) {
            WriteMode::Create
        } else {
            WriteMode::Update
        }),
{
    if base_version.is_none() && catalog.find(id).is_none() {
        WriteMode::Create
    } else {
        WriteMode::Update
    }
}

/// A whole scope.
#[derive(Clone, Debug)]
pub struct ScopeDoc {
    pub id: String,
    /// The text this scope delivers whenever it is active, `None` when it
    /// delivers none.
    pub message: Option<String>,
    pub implies: Vec<String>,
    pub triggers: Vec<Trigger>,
    /// The growth in context, in tokens, after which the scope turns itself
    /// off; `None` when it stays on until it is turned off.
    pub forget: Option<u64>,
    pub version: String,
}

/// Whether two triggers are the same.
pub open spec fn same_trigger(a: Trigger, b: Trigger) -> bool {
    a.on == b.on && a.pattern@ == b.pattern@ && opt_view(a.machine) == opt_view(b.machine)
}

/// Whether `doc` is the document of scope `e`.
pub open spec fn documents(doc: ScopeDoc, e: ScopeEntry) -> bool {
    &&& doc.id@ == e.id@
    &&& opt_view(doc.message) == opt_view(e.message)
    &&& doc.forget == e.forget
    &&& string_views(doc.implies@) == string_views(e.implies@)
    &&& doc.triggers@.len() == e.triggers@.len()
    &&& forall|i: int| 0 <= i < e.triggers@.len() ==> same_trigger(#[trigger] doc.triggers@[i], e.triggers@[i])
    &&& doc.version@ == e.version@
}

/// The document of one scope.
pub(crate) fn scope_doc(entry: &ScopeEntry) -> (doc: ScopeDoc)
    ensures
        documents(doc, *entry),
{
    let mut triggers: Vec<Trigger> = Vec::new();
    let mut i: usize = 0;
    while i < entry.triggers.len()
        invariant
            i <= entry.triggers@.len(),
            triggers@.len() == i,
            forall|j: int| 0 <= j < i ==> same_trigger(#[trigger] triggers@[j], entry.triggers@[j]),
        decreases entry.triggers.len() - i,
    {
        let t = &entry.triggers[i];
        let machine = match &t.machine {
            Some(m) => Some(m.clone()),
            None => None,
        };
        triggers.push(Trigger { on: t.on, pattern: t.pattern.clone(), machine });
        i += 1;
    }
    ScopeDoc {
        id: entry.id.clone(),
        message: crate::context::copy_text(&entry.message),
        implies: copy_strings(&entry.implies),
        triggers,
        forget: entry.forget,
        version: entry.version.clone(),
    }
}

/// Every scope that has a file, in the catalog's order.
pub fn scope_index(catalog: &Catalog) -> (docs: Vec<ScopeDoc>)
    ensures
        docs@.len() == catalog.scopes@.len(),
        forall|i: int| 0 <= i < catalog.scopes@.len() ==> documents(#[trigger] docs@[i], catalog.scopes@[i]),
{
    let mut docs: Vec<ScopeDoc> = Vec::new();
    let mut i: usize = 0;
    while i < catalog.scopes.len()
        invariant
            i <= catalog.scopes@.len(),
            docs@.len() == i,
            forall|j: int| 0 <= j < i ==> documents(#[trigger] docs@[j], catalog.scopes@[j]),
        decreases catalog.scopes.len() - i,
    {
        docs.push(scope_doc(&catalog.scopes[i]));
        i += 1;
    }
    docs
}

/// Why an operation on the store was refused.
#[derive(Clone, Debug)]
pub enum OperationError {
    /// What was asked for is not in the store; `what` names it.
    NotFound { what: String },
    /// The scope exists but keeps nothing in a file: `global`, a machine's or a
    /// session's own scope.
    ScopeHasNoFile { id: String },
    /// A scope named to turn on is not a scope of this store.
    UnknownScope { id: String },
    /// The call to turn scopes on or off named none.
    EmptyScopeList,
    /// A scope named to turn off is one every context has.
    ImplicitScope { id: String },
    /// No session by this key has been seen.
    UnknownSession { key: String },
    /// No context by this key has been seen.
    UnknownContext { key: String },
    /// The document changed since the version the write was based on;
    /// `what` names it and `version` is the one the store holds now, `None`
    /// where the store holds none.
    Conflict { what: String, version: Option<String> },
    /// The store's rules refuse what was asked, one problem per file.
    Invalid { errors: Vec<ValidationMessage> },
}

/// `the scope `<id>``, as a refusal names a scope.
pub open spec fn the_scope(id: Seq<char>) -> Seq<char> {
    "the scope `"@ + id + "`"@
}

/// Whether the catalog holds a file for scope `id`.
pub open spec fn has_scope(catalog: Catalog, id: Seq<char>) -> bool {
    exists|i: int| 0 <= i < catalog.scopes@.len() && catalog.scopes@[i].id@ == id
}

/// Whether a scope of this kind is one every context has without a file.
pub open spec fn is_implicit(kind: ScopeKind) -> bool {
    kind != ScopeKind::Defined
}

/// One scope's file. `global`, `machine:<name>` and `session:<machine>/<id>`
/// exist without one, so for them the refusal says the file is what is
/// missing rather than the scope.
pub fn scope_get(catalog: &Catalog, id: &String) -> (doc: Result<ScopeDoc, OperationError>)
    ensures
        match doc {
            Ok(d) => !is_implicit(scope_kind_of(id@)) && exists|i: int|
                0 <= i < catalog.scopes@.len() && catalog.scopes@[i].id@ == id@ && documents(d, #[trigger] catalog.scopes@[i]),
            Err(OperationError::ScopeHasNoFile { id: named }) => is_implicit(scope_kind_of(id@)) && named@ == id@,
            Err(OperationError::NotFound { what }) => !is_implicit(scope_kind_of(id@)) && !has_scope(*catalog, id@)
                && what@ == the_scope(id@),
            Err(_) => false,
        },
{
    if scope_kind(id) != ScopeKind::Defined {
        return Err(OperationError::ScopeHasNoFile { id: id.clone() });
    }
    let mut i: usize = 0;
    while i < catalog.scopes.len()
        invariant
            i <= catalog.scopes@.len(),
            forall|j: int| 0 <= j < i ==> catalog.scopes@[j].id@ != id@,
            scope_kind_of(id@) == ScopeKind::Defined,
        decreases catalog.scopes.len() - i,
    {
        if catalog.scopes[i].id == *id {
            let d = scope_doc(&catalog.scopes[i]);
            assert(documents(d, catalog.scopes@[i as int]));
            return Ok(d);
        }
        i += 1;
    }
    let mut out: Vec<char> = Vec::new();
    push_str(&mut out, "the scope `");
    push_str(&mut out, id.as_str());
    push_str(&mut out, "`");
    Err(OperationError::NotFound { what: string_of(&out) })
}

/// What a refusal says, in the words the API and the MCP tools answer with.
pub open spec fn error_message(e: OperationError) -> Seq<char> {
    match e {
        OperationError::NotFound { what } => what@ + " does not exist"@,
        OperationError::ScopeHasNoFile { id } => "the scope `"@ + id@ + "` has no file to read"@,
        OperationError::UnknownScope { id } => "`"@ + id@ + "` is not a scope in this store"@,
        OperationError::EmptyScopeList => "the list names no scope to change"@,
        OperationError::ImplicitScope { id } => "`"@ + id@ + "` is always on for a session and cannot be turned off"@,
        OperationError::UnknownSession { key } => "no session `"@ + key@ + "` has been seen by this server"@,
        OperationError::UnknownContext { key } => "no context `"@ + key@ + "` has been seen by this server"@,
        OperationError::Conflict { what, .. } => what@ + " has changed since it was read"@,
        OperationError::Invalid { errors } => "the write was refused: "@ + decimal(errors@.len()) + " problem(s) in the document"@,
    }
}

/// The HTTP status a refusal is answered with: a document or a file that is
/// not there is not found, and a request naming what cannot be done is a bad
/// request.
pub open spec fn error_status(e: OperationError) -> u16 {
    match e {
        OperationError::NotFound { .. } => 404,
        OperationError::ScopeHasNoFile { .. } => 404,
        OperationError::Conflict { .. } => 409,
        OperationError::Invalid { .. } => 422,
        _ => 400,
    }
}

impl OperationError {
    /// What the refusal says.
    pub fn message(&self) -> (text: String)
        ensures
            text@ == error_message(*self),
    {
        let mut out: Vec<char> = Vec::new();
        match self {
            OperationError::NotFound { what } => {
                push_str(&mut out, what.as_str());
                push_str(&mut out, " does not exist");
            },
            OperationError::ScopeHasNoFile { id } => {
                push_str(&mut out, "the scope `");
                push_str(&mut out, id.as_str());
                push_str(&mut out, "` has no file to read");
            },
            OperationError::UnknownScope { id } => {
                push_str(&mut out, "`");
                push_str(&mut out, id.as_str());
                push_str(&mut out, "` is not a scope in this store");
            },
            OperationError::EmptyScopeList => {
                push_str(&mut out, "the list names no scope to change");
            },
            OperationError::ImplicitScope { id } => {
                push_str(&mut out, "`");
                push_str(&mut out, id.as_str());
                push_str(&mut out, "` is always on for a session and cannot be turned off");
            },
            OperationError::UnknownSession { key } => {
                push_str(&mut out, "no session `");
                push_str(&mut out, key.as_str());
                push_str(&mut out, "` has been seen by this server");
            },
            OperationError::UnknownContext { key } => {
                push_str(&mut out, "no context `");
                push_str(&mut out, key.as_str());
                push_str(&mut out, "` has been seen by this server");
            },
            OperationError::Conflict { what, .. } => {
                push_str(&mut out, what.as_str());
                push_str(&mut out, " has changed since it was read");
            },
            OperationError::Invalid { errors } => {
                push_str(&mut out, "the write was refused: ");
                let digits = crate::text::decimal_chars(errors.len() as u64);
                crate::text::push_all(&mut out, &digits);
                push_str(&mut out, " problem(s) in the document");
            },
        }
        string_of(&out)
    }

    /// The HTTP status the refusal is answered with.
    pub fn status(&self) -> (code: u16)
        ensures
            code == error_status(*self),
    {
        match self {
            OperationError::NotFound { .. } => 404,
            OperationError::ScopeHasNoFile { .. } => 404,
            OperationError::Conflict { .. } => 409,
            OperationError::Invalid { .. } => 422,
            _ => 400,
        }
    }

    /// What a tool call that failed with this refusal tells the model: the
    /// refusal, and for a refused document one line per problem, so that it
    /// knows which part to fix.
    pub fn tool_failure(&self) -> (text: String)
        ensures
            text@ == tool_failure_text(*self),
    {
        let mut out: Vec<char> = crate::text::chars_of(self.message().as_str());
        match self {
            OperationError::Invalid { errors } => {
                let mut i: usize = 0;
                while i < errors.len()
                    invariant
                        i <= errors@.len(),
                        out@ == error_message(*self) + problem_lines(errors@.take(i as int)),
                    decreases errors.len() - i,
                {
                    proof {
                        assert(errors@.take(i + 1).drop_last() =~= errors@.take(i as int));
                        assert(errors@.take(i + 1).last() == errors@[i as int]);
                    }
                    push_str(&mut out, "\n");
                    push_str(&mut out, errors[i].path.as_str());
                    push_str(&mut out, ": ");
                    push_str(&mut out, errors[i].message.as_str());
                    assert(out@ =~= error_message(*self) + problem_lines(errors@.take(i + 1)));
                    i += 1;
                }
                assert(errors@.take(errors@.len() as int) =~= errors@);
            },
            _ => {
                assert(out@ =~= error_message(*self) + Seq::<char>::empty());
            },
        }
        string_of(&out)
    }
}

/// One line per problem, each on a line of its own: the file, then what is
/// wrong with it.
pub open spec fn problem_lines(errors: Seq<ValidationMessage>) -> Seq<char>
    decreases errors.len(),
{
    if errors.len() == 0 {
        Seq::empty()
    } else {
        problem_lines(errors.drop_last()) + "\n"@ + errors.last().path@ + ": "@ + errors.last().message@
    }
}

/// What a failed tool call tells the model.
pub open spec fn tool_failure_text(e: OperationError) -> Seq<char> {
    error_message(e) + match e {
        OperationError::Invalid { errors } => problem_lines(errors@),
        _ => Seq::empty(),
    }
}

/// One problem with one file of the store.
#[derive(Clone, Debug)]
pub struct ValidationMessage {
    /// The file, as a path in the repository.
    pub path: String,
    pub message: String,
}

/// The plain values of a problem.
pub open spec fn problem_view(m: ValidationMessage) -> (Seq<char>, Seq<char>) {
    (m.path@, m.message@)
}

/// One problem per memory of `ms` in scope `id`, in their order.
pub open spec fn memory_references(ms: Seq<MemoryEntry>, id: Seq<char>) -> Seq<(Seq<char>, Seq<char>)>
    decreases ms.len(),
{
    if ms.len() == 0 {
        Seq::empty()
    } else {
        let rest = memory_references(ms.drop_last(), id);
        if holds(ms.last().scopes@, id) {
            rest.push((
                "memories/"@ + ms.last().id@ + ".md"@,
                "is in the scope `"@ + id + "`, which cannot be deleted while a memory is in it"@,
            ))
        } else {
            rest
        }
    }
}

/// One problem per scope of `ss` other than `id` itself that implies `id`, in
/// their order.
pub open spec fn scope_references_of(ss: Seq<ScopeEntry>, id: Seq<char>) -> Seq<(Seq<char>, Seq<char>)>
    decreases ss.len(),
{
    if ss.len() == 0 {
        Seq::empty()
    } else {
        let rest = scope_references_of(ss.drop_last(), id);
        if ss.last().id@ != id && holds(ss.last().implies@, id) {
            rest.push((
                "scopes/"@ + ss.last().id@ + ".yaml"@,
                "implies the scope `"@ + id + "`, which cannot be deleted while a scope implies it"@,
            ))
        } else {
            rest
        }
    }
}

/// Every file that would be left naming scope `id` if its file were removed,
/// one problem each, the memories first and then the scopes. The scope's own
/// file is not counted: a scope that implies itself would otherwise block its
/// own deletion.
pub fn scope_references(catalog: &Catalog, id: &String) -> (problems: Vec<ValidationMessage>)
    ensures
        problems@.map_values(|m: ValidationMessage| problem_view(m)) == memory_references(catalog.memories@, id@)
            + scope_references_of(catalog.scopes@, id@),
{
    let mut problems: Vec<ValidationMessage> = Vec::new();
    let mut i: usize = 0;
    while i < catalog.memories.len()
        invariant
            i <= catalog.memories@.len(),
            problems@.map_values(|m: ValidationMessage| problem_view(m)) == memory_references(
                catalog.memories@.take(i as int),
                id@,
            ),
        decreases catalog.memories.len() - i,
    {
        proof {
            assert(catalog.memories@.take(i + 1).drop_last() =~= catalog.memories@.take(i as int));
            assert(catalog.memories@.take(i + 1).last() == catalog.memories@[i as int]);
        }
        let m = &catalog.memories[i];
        if holds_string(&m.scopes, id) {
            let mut message: Vec<char> = Vec::new();
            push_str(&mut message, "is in the scope `");
            push_str(&mut message, id.as_str());
            push_str(&mut message, "`, which cannot be deleted while a memory is in it");
            let ghost before = problems@;
            problems.push(ValidationMessage {
                path: crate::naming::DocumentKind::Memory.repository_path(m.id.as_str()),
                message: string_of(&message),
            });
            proof {
                assert(problems@.map_values(|m: ValidationMessage| problem_view(m)) =~= before.map_values(
                    |m: ValidationMessage| problem_view(m),
                ).push(problem_view(problems@.last())));
            }
        }
        i += 1;
    }
    proof {
        assert(catalog.memories@.take(catalog.memories@.len() as int) =~= catalog.memories@);
    }
    let ghost from_memories = problems@.map_values(|m: ValidationMessage| problem_view(m));
    let mut k: usize = 0;
    while k < catalog.scopes.len()
        invariant
            k <= catalog.scopes@.len(),
            from_memories == memory_references(catalog.memories@, id@),
            problems@.map_values(|m: ValidationMessage| problem_view(m)) == from_memories + scope_references_of(
                catalog.scopes@.take(k as int),
                id@,
            ),
        decreases catalog.scopes.len() - k,
    {
        proof {
            assert(catalog.scopes@.take(k + 1).drop_last() =~= catalog.scopes@.take(k as int));
            assert(catalog.scopes@.take(k + 1).last() == catalog.scopes@[k as int]);
        }
        let e = &catalog.scopes[k];
        if e.id != *id && holds_string(&e.implies, id) {
            let mut message: Vec<char> = Vec::new();
            push_str(&mut message, "implies the scope `");
            push_str(&mut message, id.as_str());
            push_str(&mut message, "`, which cannot be deleted while a scope implies it");
            let ghost before = problems@;
            problems.push(ValidationMessage {
                path: crate::naming::DocumentKind::Scope.repository_path(e.id.as_str()),
                message: string_of(&message),
            });
            proof {
                assert(problems@.map_values(|m: ValidationMessage| problem_view(m)) =~= before.map_values(
                    |m: ValidationMessage| problem_view(m),
                ).push(problem_view(problems@.last())));
            }
        }
        k += 1;
    }
    proof {
        assert(catalog.scopes@.take(catalog.scopes@.len() as int) =~= catalog.scopes@);
    }
    problems
}

/// Everything wrong with the store, and the memories worth a second look.
#[derive(Clone, Debug)]
pub struct ReviewReport {
    pub errors: Vec<ValidationMessage>,
    /// What is worth seeing but does not make the store invalid.
    pub warnings: Vec<ValidationMessage>,
    /// Critical memories whose scope is `global`: they are delivered in full
    /// to every session on every machine, which is worth a second look.
    pub global_only_critical: Vec<String>,
}

/// Whether `m` is a critical memory whose scope, the first its file names,
/// is `global`.
pub open spec fn global_critical(m: MemoryEntry) -> bool {
    &&& m.kind == MemoryKind::Critical
    &&& m.scopes@.len() > 0
    &&& m.scopes@[0]@ == crate::scopes::global_id()
}

/// The ids of the critical memories whose scope is `global`, in the
/// catalog's order.
pub open spec fn global_critical_ids(memories: Seq<MemoryEntry>) -> Seq<Seq<char>> {
    memories.filter(|m: MemoryEntry| global_critical(m)).map_values(|m: MemoryEntry| m.id@)
}

/// Whether `m` is a critical memory whose scope is `global`.
fn is_global_critical(m: &MemoryEntry) -> (is: bool)
    ensures
        is == global_critical(*m),
{
    if m.kind != MemoryKind::Critical || m.scopes.len() == 0 {
        return false;
    }
    let first = crate::text::chars_of(m.scopes[0].as_str());
    proof {
        reveal_strlit("global");
        assert("global"@ =~= crate::scopes::global_id());
    }
    crate::text::same_chars(first.as_slice(), crate::text::chars_of("global").as_slice())
}

/// The review of the store: what its validation found, `errors` and
/// `warnings`, and the critical memories delivered to every session because
/// their scope is `global`.
pub fn review(catalog: &Catalog, errors: Vec<ValidationMessage>, warnings: Vec<ValidationMessage>) -> (report: ReviewReport)
    ensures
        report.errors@ == errors@,
        report.warnings@ == warnings@,
        string_views(report.global_only_critical@) == global_critical_ids(catalog.memories@),
{
    let mut ids: Vec<String> = Vec::new();
    let mut i: usize = 0;
    while i < catalog.memories.len()
        invariant
            i <= catalog.memories@.len(),
            string_views(ids@) == global_critical_ids(catalog.memories@.take(i as int)),
        decreases catalog.memories.len() - i,
    {
        let m = &catalog.memories[i];
        let ghost before = catalog.memories@.take(i as int);
        assert(catalog.memories@.take(i + 1) =~= before.push(*m));
        proof {
            crate::text::lemma_filter_push(before, |x: MemoryEntry| global_critical(x), *m);
        }
        let ghost kept = before.filter(|x: MemoryEntry| global_critical(x));
        if is_global_critical(m) {
            ids.push(m.id.clone());
            assert(kept.push(*m).map_values(|x: MemoryEntry| x.id@) =~= kept.map_values(|x: MemoryEntry| x.id@).push(m.id@));
            assert(string_views(ids@) =~= global_critical_ids(catalog.memories@.take(i + 1)));
        } else {
            assert(string_views(ids@) =~= global_critical_ids(catalog.memories@.take(i + 1)));
        }
        i += 1;
    }
    assert(catalog.memories@.take(catalog.memories@.len() as int) =~= catalog.memories@);
    ReviewReport { errors, warnings, global_only_critical: ids }
}

} // verus!
