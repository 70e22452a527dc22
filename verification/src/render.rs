//! The text injected into a session's context, and the accounting of that text.
//!
//! The answer is built scope by scope: one section per scope that has something
//! to deliver, holding that scope's critical bodies and then its index lines. A
//! memory in several active scopes is printed once, under the first of them, so
//! every character of a section belongs to that scope alone. The lines that
//! belong to no scope, the context line, the notice, the withdrawals, the
//! activated scopes and the session start's lines, are the answer's overhead.
use vstd::prelude::*;

use crate::catalog::{holds, string_views, Catalog, MemoryEntry, MemoryKind};
use crate::context::{key_text, needs_delivered, ContextKey, Needs, RetractReason};
use crate::scopes::global_id;
use crate::text::{concat, seq_lt, trim_end, utf16_len, utf8_len};

verus! {

/// The line every answer opens with, before the context key: the one mark
/// that says a text is this server's own answer.
pub open spec fn answer_marker() -> Seq<char> {
    "[forgetmenot] context "@
}

/// What to render for one event.
pub struct Delivery<'a> {
    pub key: &'a ContextKey,
    pub catalog: &'a Catalog,
    pub needs: &'a Needs,
    /// The context's scopes after this event's triggers were applied.
    pub active: &'a Vec<String>,
    /// The scopes this event turned on, ordered by id.
    pub activated: &'a Vec<String>,
    /// Whether a scope that became active with nothing to deliver is named.
    pub announce_empty_scopes: bool,
    /// At a session start the model is also told its session key.
    pub session_start: bool,
    /// The characters of an answer above which it opens with the notice
    /// telling the model to read the file the harness saved it to.
    pub answer_file_threshold: Option<u64>,
}

/// One memory as it was printed in a section: the UTF-16 code units and the
/// UTF-8 bytes of exactly the text printed for it.
#[derive(Clone, Debug)]
pub struct SectionMemory {
    pub id: String,
    pub chars: u64,
    pub bytes: u64,
}

/// What one scope's section of an answer holds.
#[derive(Clone, Debug)]
pub struct Section {
    pub scope: String,
    /// The heading line plus every memory printed under it, in UTF-16 code
    /// units.
    pub chars: u64,
    /// Each memory printed here, in the order printed.
    pub memories: Vec<SectionMemory>,
}

/// One rendered answer with the accounting of its text.
#[derive(Clone, Debug)]
pub struct Rendered {
    pub text: String,
    /// One per scope with something to deliver, in the order printed.
    pub sections: Vec<Section>,
    /// UTF-16 units of the text that belongs to no scope.
    pub overhead_chars: u64,
}

// ---------------------------------------------------------------------------
// What is printed, as specifications
// ---------------------------------------------------------------------------

/// Whether section `a` is printed before section `b`: `global` first, then
/// by id.
pub open spec fn key_lt(a: Seq<char>, b: Seq<char>) -> bool {
    let ga = a == global_id();
    let gb = b == global_id();
    (ga && !gb) || (ga == gb && seq_lt(a, b))
}

/// The scope of `candidates` printed first, if there is one.
pub open spec fn first_section(candidates: Seq<Seq<char>>) -> Option<Seq<char>>
    decreases candidates.len(),
{
    if candidates.len() == 0 {
        None
    } else {
        match first_section(candidates.drop_last()) {
            None => Some(candidates.last()),
            Some(best) => if key_lt(candidates.last(), best) {
                Some(candidates.last())
            } else {
                Some(best)
            },
        }
    }
}

/// The scopes of `scopes` that are active.
pub open spec fn active_only(scopes: Seq<Seq<char>>, active: Seq<String>) -> Seq<Seq<char>>
    decreases scopes.len(),
{
    if scopes.len() == 0 {
        Seq::empty()
    } else if holds(active, scopes.last()) {
        active_only(scopes.drop_last(), active).push(scopes.last())
    } else {
        active_only(scopes.drop_last(), active)
    }
}

/// The scope a memory is printed under: the first of its active scopes in
/// section order, else the first of its scopes, else `global`.
pub open spec fn section_of(active: Seq<String>, m: MemoryEntry) -> Seq<char> {
    let scopes = string_views(m.scopes@);
    match first_section(active_only(scopes, active)) {
        Some(s) => s,
        None => match first_section(scopes) {
            Some(s) => s,
            None => global_id(),
        },
    }
}

/// The catalog entries of `ids`, skipping the ids the catalog does not hold.
pub open spec fn present(catalog: &Catalog, ids: Seq<Seq<char>>) -> Seq<MemoryEntry>
    decreases ids.len(),
{
    if ids.len() == 0 {
        Seq::empty()
    } else {
        match catalog.memory_spec(ids.last()) {
            Some(m) => present(catalog, ids.drop_last()).push(m),
            None => present(catalog, ids.drop_last()),
        }
    }
}

/// The entries of `ms` of one kind.
pub open spec fn of_kind(ms: Seq<MemoryEntry>, kind: MemoryKind) -> Seq<MemoryEntry>
    decreases ms.len(),
{
    if ms.len() == 0 {
        Seq::empty()
    } else if ms.last().kind == kind {
        of_kind(ms.drop_last(), kind).push(ms.last())
    } else {
        of_kind(ms.drop_last(), kind)
    }
}

/// `m` placed into `sorted` after every entry whose id is not later.
pub open spec fn insert_by_id(sorted: Seq<MemoryEntry>, m: MemoryEntry) -> Seq<MemoryEntry>
    decreases sorted.len(),
{
    if sorted.len() == 0 {
        seq![m]
    } else if seq_lt(m.id@, sorted.last().id@) {
        insert_by_id(sorted.drop_last(), m).push(sorted.last())
    } else {
        sorted.push(m)
    }
}

/// `ms` ordered by id, keeping the order of equal ids.
pub open spec fn sort_by_id(ms: Seq<MemoryEntry>) -> Seq<MemoryEntry>
    decreases ms.len(),
{
    if ms.len() == 0 {
        Seq::empty()
    } else {
        insert_by_id(sort_by_id(ms.drop_last()), ms.last())
    }
}

/// The critical memories to deliver in full: new before changed before
/// stale, as the needs list them.
pub open spec fn critical_of(d: Delivery) -> Seq<MemoryEntry> {
    of_kind(present(d.catalog, needs_delivered(*d.needs)), MemoryKind::Critical)
}

/// The knowledge memories to deliver as index lines, by id.
pub open spec fn knowledge_of(d: Delivery) -> Seq<MemoryEntry> {
    sort_by_id(of_kind(present(d.catalog, needs_delivered(*d.needs)), MemoryKind::Knowledge))
}

/// `s` placed into the section order `sorted`, unless it is there already.
pub open spec fn insert_scope(sorted: Seq<Seq<char>>, s: Seq<char>) -> Seq<Seq<char>>
    decreases sorted.len(),
{
    if sorted.len() == 0 {
        seq![s]
    } else if sorted.last() == s {
        sorted
    } else if key_lt(s, sorted.last()) {
        insert_scope(sorted.drop_last(), s).push(sorted.last())
    } else {
        sorted.push(s)
    }
}

/// The sections of the memories `ms`, each once, in section order.
pub open spec fn sections_for(active: Seq<String>, ms: Seq<MemoryEntry>) -> Seq<Seq<char>>
    decreases ms.len(),
{
    if ms.len() == 0 {
        Seq::empty()
    } else {
        insert_scope(sections_for(active, ms.drop_last()), section_of(active, ms.last()))
    }
}

/// The sections an answer prints, in the order printed.
pub open spec fn section_list(d: Delivery) -> Seq<Seq<char>> {
    sections_for(d.active@, critical_of(d) + knowledge_of(d))
}

/// The memories of `ms` printed under `scope`.
pub open spec fn in_section(active: Seq<String>, ms: Seq<MemoryEntry>, scope: Seq<char>) -> Seq<MemoryEntry>
    decreases ms.len(),
{
    if ms.len() == 0 {
        Seq::empty()
    } else if section_of(active, ms.last()) == scope {
        in_section(active, ms.drop_last(), scope).push(ms.last())
    } else {
        in_section(active, ms.drop_last(), scope)
    }
}

/// A section's heading line.
pub open spec fn heading(scope: Seq<char>) -> Seq<char> {
    "== scope: "@ + scope + " ==\n"@
}

/// What is printed for a critical memory: a header naming its id, or saying
/// it is a scope's message, then its body in full.
pub open spec fn critical_piece(m: MemoryEntry) -> Seq<char> {
    let header = match m.message_of {
        Some(_) => "-- message --\n"@,
        None => "-- critical: "@ + m.id@ + " --\n"@,
    };
    header + trim_end(m.body@) + "\n\n"@
}

/// What is printed for a knowledge memory: its id and its description, under
/// the block's heading when it is the first of its section.
pub open spec fn knowledge_piece(m: MemoryEntry, first: bool) -> Seq<char> {
    let header = if first {
        "-- knowledge --\n"@
    } else {
        Seq::empty()
    };
    header + "- "@ + m.id@ + ": "@ + m.description@ + "\n"@
}

/// The pieces printed for the critical memories `ms`.
pub open spec fn critical_pieces(ms: Seq<MemoryEntry>) -> Seq<Seq<char>> {
    ms.map_values(|m: MemoryEntry| critical_piece(m))
}

/// The pieces printed for the knowledge memories `ms`.
pub open spec fn knowledge_pieces(ms: Seq<MemoryEntry>) -> Seq<Seq<char>> {
    Seq::new(ms.len(), |i: int| knowledge_piece(ms[i], i == 0))
}

/// The pieces of a section, in the order printed.
pub open spec fn section_pieces(d: Delivery, scope: Seq<char>) -> Seq<Seq<char>> {
    critical_pieces(in_section(d.active@, critical_of(d), scope)) + knowledge_pieces(
        in_section(d.active@, knowledge_of(d), scope),
    )
}

/// The memories of a section, in the order printed.
pub open spec fn section_members(d: Delivery, scope: Seq<char>) -> Seq<MemoryEntry> {
    in_section(d.active@, critical_of(d), scope) + in_section(d.active@, knowledge_of(d), scope)
}

/// The text of a section.
pub open spec fn section_text(d: Delivery, scope: Seq<char>) -> Seq<char> {
    heading(scope) + concat(section_pieces(d, scope))
}

/// The opening line: the marker and the context key.
pub open spec fn marker_line(d: Delivery) -> Seq<char> {
    answer_marker() + key_text(d.key@) + "\n"@
}

/// How a withdrawal reads.
pub open spec fn reason_text(reason: RetractReason) -> Seq<char> {
    match reason {
        RetractReason::Deleted => "deleted"@,
        RetractReason::NoActiveScope => "no longer in an active scope"@,
    }
}

/// The line of one withdrawal.
pub open spec fn retraction_line(r: crate::context::Retraction) -> Seq<char> {
    "- "@ + r.id@ + " ("@ + reason_text(r.reason) + ")\n"@
}

/// The line of one announced scope.
pub open spec fn scope_line(s: Seq<char>) -> Seq<char> {
    s + "\n"@
}

/// The block of withdrawals, empty when there are none.
pub open spec fn retracted_block(d: Delivery) -> Seq<char> {
    let rs = d.needs.retracted@;
    if rs.len() == 0 {
        Seq::empty()
    } else {
        "== retracted ==\n"@ + concat(rs.map_values(|r: crate::context::Retraction| retraction_line(r)))
    }
}

/// The scopes the delivered memories belong to.
pub open spec fn delivering(d: Delivery, scope: Seq<char>) -> bool {
    exists|i: int|
        0 <= i < present(d.catalog, needs_delivered(*d.needs)).len() && holds(
            #[trigger] present(d.catalog, needs_delivered(*d.needs))[i].scopes@,
            scope,
        )
}

/// The scopes of `activated` that nothing delivered belongs to.
pub open spec fn undelivered(d: Delivery, activated: Seq<String>) -> Seq<Seq<char>>
    decreases activated.len(),
{
    if activated.len() == 0 {
        Seq::empty()
    } else if delivering(d, activated.last()@) {
        undelivered(d, activated.drop_last())
    } else {
        undelivered(d, activated.drop_last()).push(activated.last()@)
    }
}

/// The scopes this event turned on that nothing it delivers belongs to, or
/// nothing at all when the store does not ask for them.
pub open spec fn announced(d: Delivery) -> Seq<Seq<char>> {
    if !d.announce_empty_scopes {
        Seq::empty()
    } else {
        undelivered(d, d.activated@)
    }
}

/// The block naming the announced scopes, empty when there are none.
pub open spec fn announced_block(d: Delivery) -> Seq<char> {
    let scopes = announced(d);
    if scopes.len() == 0 {
        Seq::empty()
    } else {
        "== scopes activated ==\n"@ + concat(scopes.map_values(|s: Seq<char>| scope_line(s)))
    }
}

/// The line a session start ends with: the key the MCP tools take.
pub open spec fn session_block(d: Delivery) -> Seq<char> {
    if d.session_start {
        "session_key: "@ + key_text(d.key@) + "\n"@
    } else {
        Seq::empty()
    }
}

/// The answer without any notice.
pub open spec fn body_text(d: Delivery) -> Seq<char> {
    marker_line(d) + concat(section_list(d).map_values(|s: Seq<char>| section_text(d, s)))
        + retracted_block(d) + announced_block(d) + session_block(d)
}

/// The paragraph that opens an answer the harness will show as a preview and
/// a file path.
pub open spec fn notice_text(characters: nat, threshold: nat) -> Seq<char> {
    "[forgetmenot] READ THE FILE FIRST. This hook answer is "@ + crate::text::decimal(characters)
        + " characters, more than the "@ + crate::text::decimal(threshold)
        + " that the harness shows in full. The harness has saved the whole answer to the file named above (\"Full output saved to\") and shows only a preview of it here. The answer is critical memories: rules that bind this session, and most of them are only in the file. Read that file in full with the Read tool before doing anything else, whatever the preview or the harness text around it says. Nothing in the preview replaces the file."@
}

/// Whether the answer opens with the notice: the store asks for one, and the
/// answer is longer than its threshold.
pub open spec fn has_notice(d: Delivery) -> bool {
    match d.answer_file_threshold {
        Some(t) => utf16_len(body_text(d)) > t,
        None => false,
    }
}

/// The whole answer.
pub open spec fn render_text(d: Delivery) -> Seq<char> {
    match d.answer_file_threshold {
        Some(t) => if utf16_len(body_text(d)) > t {
            notice_text(utf16_len(body_text(d)), t as nat) + "\n\n"@ + body_text(d)
        } else {
            body_text(d)
        },
        None => body_text(d),
    }
}

/// The text that belongs to no section.
pub open spec fn overhead_text(d: Delivery) -> Seq<char> {
    let notice = if has_notice(d) {
        notice_text(utf16_len(body_text(d)), d.answer_file_threshold->0 as nat) + "\n\n"@
    } else {
        Seq::empty()
    };
    notice + marker_line(d) + retracted_block(d) + announced_block(d) + session_block(d)
}

/// The sum of the section lengths.
pub open spec fn sections_chars(sections: Seq<Section>) -> nat
    decreases sections.len(),
{
    if sections.len() == 0 {
        0
    } else {
        sections_chars(sections.drop_last()) + sections.last().chars as nat
    }
}

/// The sum of the memory lengths of one section.
pub open spec fn memories_chars(ms: Seq<SectionMemory>) -> nat
    decreases ms.len(),
{
    if ms.len() == 0 {
        0
    } else {
        memories_chars(ms.drop_last()) + ms.last().chars as nat
    }
}

/// Whether a rendered section is the section of `scope` for `d`, with every
/// length counted from the text printed.
pub open spec fn section_matches(d: Delivery, section: Section, scope: Seq<char>) -> bool {
    let members = section_members(d, scope);
    let pieces = section_pieces(d, scope);
    &&& section.scope@ == scope
    &&& section.chars == utf16_len(section_text(d, scope))
    &&& section.memories@.len() == members.len()
    &&& forall|i: int|
        0 <= i < members.len() ==> {
            &&& (#[trigger] section.memories@[i]).id@ == members[i].id@
            &&& section.memories@[i].chars == utf16_len(pieces[i])
            &&& section.memories@[i].bytes == utf8_len(pieces[i])
        }
}


// ---------------------------------------------------------------------------
// Building the answer
// ---------------------------------------------------------------------------

/// The catalog entries at positions `idx`.
pub open spec fn entries_at(catalog: &Catalog, idx: Seq<usize>) -> Seq<MemoryEntry> {
    idx.map_values(|i: usize| catalog.memories@[i as int])
}

/// Whether every position of `idx` is one of the catalog's.
pub open spec fn in_bounds(catalog: &Catalog, idx: Seq<usize>) -> bool {
    forall|k: int| 0 <= k < idx.len() ==> #[trigger] idx[k] < catalog.memories@.len()
}

/// Whether section `a` is printed before section `b`.
pub fn key_less(a: &String, b: &String) -> (less: bool)
    ensures
        less == key_lt(a@, b@),
{
    let global = crate::scopes::global();
    let ga = *a == global;
    let gb = *b == global;
    if ga && !gb {
        return true;
    }
    if ga != gb {
        return false;
    }
    crate::text::chars_lt(&crate::text::chars_of(a.as_str()), &crate::text::chars_of(b.as_str()))
}

/// The scope `m` is printed under in a context working in `active`.
pub fn section_of_memory(active: &Vec<String>, m: &MemoryEntry) -> (scope: String)
    ensures
        scope@ == section_of(active@, *m),
{
    let ghost all = string_views(m.scopes@);
    let mut best_active: Option<String> = None;
    let mut best_any: Option<String> = None;
    let mut i: usize = 0;
    while i < m.scopes.len()
        invariant
            all == string_views(m.scopes@),
            i <= m.scopes@.len(),
            match best_active {
                Some(b) => first_section(active_only(all.take(i as int), active@)) == Some(b@),
                None => first_section(active_only(all.take(i as int), active@)) is None,
            },
            match best_any {
                Some(b) => first_section(all.take(i as int)) == Some(b@),
                None => first_section(all.take(i as int)) is None,
            },
        decreases m.scopes.len() - i,
    {
        let scope = &m.scopes[i];
        assert(all.take(i + 1).drop_last() =~= all.take(i as int));
        assert(all.take(i + 1).last() == scope@);
        assert(all.take(i + 1).drop_last() =~= all.take(i as int));
        best_any = match best_any {
            None => Some(scope.clone()),
            Some(b) => if key_less(scope, &b) {
                Some(scope.clone())
            } else {
                Some(b)
            },
        };
        if crate::catalog::holds_string(active, scope) {
            let ghost prev = active_only(all.take(i as int), active@);
            assert(active_only(all.take(i + 1), active@) == prev.push(scope@));
            assert(prev.push(scope@).drop_last() =~= prev);
            assert(prev.push(scope@).last() == scope@);
            best_active = match best_active {
                None => Some(scope.clone()),
                Some(b) => if key_less(scope, &b) {
                    Some(scope.clone())
                } else {
                    Some(b)
                },
            };
        } else {
            assert(active_only(all.take(i + 1), active@) == active_only(all.take(i as int), active@));
        }
        i += 1;
    }
    assert(all.take(m.scopes.len() as int) =~= all);
    match best_active {
        Some(b) => b,
        None => match best_any {
            Some(b) => b,
            None => crate::scopes::global(),
        },
    }
}

/// The positions of the catalog entries of `ids`, skipping the ids the
/// catalog does not hold.
fn present_positions(catalog: &Catalog, ids: &Vec<String>) -> (idx: Vec<usize>)
    requires
        catalog.well_formed(),
    ensures
        in_bounds(catalog, idx@),
        entries_at(catalog, idx@) == present(catalog, string_views(ids@)),
{
    let ghost all = string_views(ids@);
    let mut idx: Vec<usize> = Vec::new();
    let mut i: usize = 0;
    while i < ids.len()
        invariant
            catalog.well_formed(),
            all == string_views(ids@),
            i <= ids@.len(),
            in_bounds(catalog, idx@),
            entries_at(catalog, idx@) == present(catalog, all.take(i as int)),
        decreases ids.len() - i,
    {
        assert(all.take(i + 1).drop_last() =~= all.take(i as int));
        assert(all.take(i + 1).last() == ids@[i as int]@);
        match catalog.find(&ids[i]) {
            Some(p) => {
                proof {
                    crate::context::lemma_memory_at(catalog, p as int);
                }
                idx.push(p);
                assert(entries_at(catalog, idx@) =~= present(catalog, all.take(i as int)).push(
                    catalog.memories@[p as int],
                ));
            },
            None => {},
        }
        i += 1;
    }
    assert(all.take(ids.len() as int) =~= all);
    idx
}

/// The positions of `idx` whose entries are of `kind`.
fn positions_of_kind(catalog: &Catalog, idx: &Vec<usize>, kind: MemoryKind) -> (out: Vec<usize>)
    requires
        in_bounds(catalog, idx@),
    ensures
        in_bounds(catalog, out@),
        entries_at(catalog, out@) == of_kind(entries_at(catalog, idx@), kind),
{
    let ghost all = entries_at(catalog, idx@);
    let mut out: Vec<usize> = Vec::new();
    let mut i: usize = 0;
    while i < idx.len()
        invariant
            in_bounds(catalog, idx@),
            all == entries_at(catalog, idx@),
            i <= idx@.len(),
            in_bounds(catalog, out@),
            entries_at(catalog, out@) == of_kind(all.take(i as int), kind),
        decreases idx.len() - i,
    {
        assert(all.take(i + 1).drop_last() =~= all.take(i as int));
        assert(all.take(i + 1).last() == catalog.memories@[idx@[i as int] as int]);
        let p = idx[i];
        if catalog.memories[p].kind == kind {
            out.push(p);
            assert(entries_at(catalog, out@) =~= of_kind(all.take(i as int), kind).push(
                catalog.memories@[p as int],
            ));
        }
        i += 1;
    }
    assert(all.take(idx.len() as int) =~= all);
    out
}

/// `sorted` with the catalog entry at `p` placed by id.
fn insert_position_by_id(catalog: &Catalog, sorted: &mut Vec<usize>, p: usize)
    requires
        in_bounds(catalog, old(sorted)@),
        p < catalog.memories@.len(),
    ensures
        in_bounds(catalog, final(sorted)@),
        entries_at(catalog, final(sorted)@) == insert_by_id(
            entries_at(catalog, old(sorted)@),
            catalog.memories@[p as int],
        ),
{
    let ghost before = entries_at(catalog, sorted@);
    let ghost m = catalog.memories@[p as int];
    let id = crate::text::chars_of(catalog.memories[p].id.as_str());
    let mut q: usize = sorted.len();
    assert(before.take(q as int) =~= before);
    assert(before.skip(q as int) =~= Seq::<MemoryEntry>::empty());
    while q > 0 && crate::text::chars_lt(
        &id,
        &crate::text::chars_of(catalog.memories[sorted[q - 1]].id.as_str()),
    )
        invariant
            in_bounds(catalog, sorted@),
            before == entries_at(catalog, sorted@),
            p < catalog.memories@.len(),
            m == catalog.memories@[p as int],
            id@ == m.id@,
            q <= sorted@.len(),
            insert_by_id(before, m) == insert_by_id(before.take(q as int), m) + before.skip(q as int),
        decreases q,
    {
        let ghost head = before.take(q as int);
        assert(head.last() == before[q - 1]);
        assert(head.drop_last() =~= before.take(q - 1));
        assert(before.skip(q - 1) =~= seq![before[q - 1]] + before.skip(q as int));
        assert(insert_by_id(head, m) == insert_by_id(before.take(q - 1), m).push(before[q - 1]));
        assert(insert_by_id(before.take(q - 1), m).push(before[q - 1]) + before.skip(q as int)
            =~= insert_by_id(before.take(q - 1), m) + before.skip(q - 1));
        q -= 1;
    }
    proof {
        if q == 0 {
            assert(before.take(0) =~= Seq::<MemoryEntry>::empty());
        } else {
            assert(before.take(q as int).last() == before[q - 1]);
        }
    }
    sorted.insert(q, p);
    assert(entries_at(catalog, sorted@) =~= before.take(q as int).push(m) + before.skip(q as int));
}

/// The positions `idx` ordered by the ids of their entries.
fn sort_positions_by_id(catalog: &Catalog, idx: &Vec<usize>) -> (out: Vec<usize>)
    requires
        in_bounds(catalog, idx@),
    ensures
        in_bounds(catalog, out@),
        entries_at(catalog, out@) == sort_by_id(entries_at(catalog, idx@)),
{
    let ghost all = entries_at(catalog, idx@);
    let mut out: Vec<usize> = Vec::new();
    let mut i: usize = 0;
    while i < idx.len()
        invariant
            in_bounds(catalog, idx@),
            all == entries_at(catalog, idx@),
            i <= idx@.len(),
            in_bounds(catalog, out@),
            entries_at(catalog, out@) == sort_by_id(all.take(i as int)),
        decreases idx.len() - i,
    {
        assert(all.take(i + 1).drop_last() =~= all.take(i as int));
        assert(all.take(i + 1).last() == catalog.memories@[idx@[i as int] as int]);
        insert_position_by_id(catalog, &mut out, idx[i]);
        i += 1;
    }
    assert(all.take(idx.len() as int) =~= all);
    out
}

/// `sorted` with `scope` placed in section order, unless it is there already.
fn insert_section(sorted: &mut Vec<String>, scope: String)
    ensures
        string_views(final(sorted)@) == insert_scope(string_views(old(sorted)@), scope@),
{
    let ghost before = string_views(sorted@);
    let mut q: usize = sorted.len();
    assert(before.take(q as int) =~= before);
    assert(before.skip(q as int) =~= Seq::<Seq<char>>::empty());
    while q > 0 && !(sorted[q - 1] == scope) && key_less(&scope, &sorted[q - 1])
        invariant
            before == string_views(sorted@),
            q <= sorted@.len(),
            insert_scope(before, scope@) == insert_scope(before.take(q as int), scope@) + before.skip(q as int),
        decreases q,
    {
        let ghost head = before.take(q as int);
        assert(head.last() == before[q - 1]);
        assert(head.drop_last() =~= before.take(q - 1));
        assert(before.skip(q - 1) =~= seq![before[q - 1]] + before.skip(q as int));
        assert(insert_scope(head, scope@) == insert_scope(before.take(q - 1), scope@).push(before[q - 1]));
        assert(insert_scope(before.take(q - 1), scope@).push(before[q - 1]) + before.skip(q as int)
            =~= insert_scope(before.take(q - 1), scope@) + before.skip(q - 1));
        q -= 1;
    }
    if q > 0 && sorted[q - 1] == scope {
        assert(before.take(q as int).last() == before[q - 1]);
        assert(before.take(q as int) + before.skip(q as int) =~= before);
        return;
    }
    proof {
        if q == 0 {
            assert(before.take(0) =~= Seq::<Seq<char>>::empty());
        } else {
            assert(before.take(q as int).last() == before[q - 1]);
        }
    }
    sorted.insert(q, scope);
    assert(string_views(sorted@) =~= before.take(q as int).push(scope@) + before.skip(q as int));
}

/// The section of each entry at `idx`.
fn sections_of_positions(active: &Vec<String>, catalog: &Catalog, idx: &Vec<usize>) -> (out: Vec<String>)
    requires
        in_bounds(catalog, idx@),
    ensures
        out@.len() == idx@.len(),
        forall|k: int| 0 <= k < idx@.len() ==> (#[trigger] out@[k])@ == section_of(
            active@,
            catalog.memories@[idx@[k] as int],
        ),
{
    let mut out: Vec<String> = Vec::new();
    let mut i: usize = 0;
    while i < idx.len()
        invariant
            in_bounds(catalog, idx@),
            i <= idx@.len(),
            out@.len() == i,
            forall|k: int| 0 <= k < i ==> (#[trigger] out@[k])@ == section_of(
                active@,
                catalog.memories@[idx@[k] as int],
            ),
        decreases idx.len() - i,
    {
        out.push(section_of_memory(active, &catalog.memories[idx[i]]));
        i += 1;
    }
    out
}


/// The text printed for a critical memory.
fn critical_piece_chars(m: &MemoryEntry) -> (out: Vec<char>)
    ensures
        out@ == critical_piece(*m),
{
    let mut out: Vec<char> = Vec::new();
    match &m.message_of {
        Some(_) => crate::text::push_str(&mut out, "-- message --\n"),
        None => {
            crate::text::push_str(&mut out, "-- critical: ");
            crate::text::push_str(&mut out, m.id.as_str());
            crate::text::push_str(&mut out, " --\n");
        },
    }
    let body = crate::text::trim_end_chars(&crate::text::chars_of(m.body.as_str()));
    crate::text::push_all(&mut out, &body);
    crate::text::push_str(&mut out, "\n\n");
    out
}

/// The text printed for a knowledge memory.
fn knowledge_piece_chars(m: &MemoryEntry, first: bool) -> (out: Vec<char>)
    ensures
        out@ == knowledge_piece(*m, first),
{
    let mut out: Vec<char> = Vec::new();
    if first {
        crate::text::push_str(&mut out, "-- knowledge --\n");
    }
    crate::text::push_str(&mut out, "- ");
    crate::text::push_str(&mut out, m.id.as_str());
    crate::text::push_str(&mut out, ": ");
    crate::text::push_str(&mut out, m.description.as_str());
    crate::text::push_str(&mut out, "\n");
    assert(out@ =~= knowledge_piece(*m, first));
    out
}

/// One memory as printed, with lengths wider than any answer.
struct Counted {
    id: String,
    chars: u128,
    bytes: u128,
}

/// Whether `counted` records `members` with the lengths of `pieces`.
spec fn counted_matches(counted: Seq<Counted>, members: Seq<MemoryEntry>, pieces: Seq<Seq<char>>) -> bool {
    &&& counted.len() == members.len()
    &&& counted.len() == pieces.len()
    &&& forall|i: int|
        0 <= i < counted.len() ==> {
            &&& (#[trigger] counted[i]).id@ == members[i].id@
            &&& counted[i].chars == utf16_len(pieces[i])
            &&& counted[i].bytes == utf8_len(pieces[i])
        }
}

/// The text of the section of `scope`, and each memory printed in it.
fn render_section(
    d: &Delivery,
    crit: &Vec<usize>,
    crit_sec: &Vec<String>,
    know: &Vec<usize>,
    know_sec: &Vec<String>,
    scope: &String,
) -> (out: (Vec<char>, Vec<Counted>))
    requires
        in_bounds(d.catalog, crit@),
        in_bounds(d.catalog, know@),
        entries_at(d.catalog, crit@) == critical_of(*d),
        entries_at(d.catalog, know@) == knowledge_of(*d),
        crit_sec@.len() == crit@.len(),
        know_sec@.len() == know@.len(),
        forall|k: int| 0 <= k < crit@.len() ==> (#[trigger] crit_sec@[k])@ == section_of(d.active@, d.catalog.memories@[crit@[k] as int]),
        forall|k: int| 0 <= k < know@.len() ==> (#[trigger] know_sec@[k])@ == section_of(d.active@, d.catalog.memories@[know@[k] as int]),
    ensures
        out.0@ == section_text(*d, scope@),
        counted_matches(out.1@, section_members(*d, scope@), section_pieces(*d, scope@)),
{
    let ghost cs = critical_of(*d);
    let ghost ks = knowledge_of(*d);
    let ghost s = scope@;
    let mut text: Vec<char> = Vec::new();
    crate::text::push_str(&mut text, "== scope: ");
    crate::text::push_str(&mut text, scope.as_str());
    crate::text::push_str(&mut text, " ==\n");
    let mut counted: Vec<Counted> = Vec::new();
    let mut j: usize = 0;
    assert(cs.take(0) =~= Seq::<MemoryEntry>::empty());
    assert(text@ =~= heading(s) + concat(critical_pieces(in_section(d.active@, cs.take(0), s))));
    while j < crit.len()
        invariant
            in_bounds(d.catalog, crit@),
            cs == critical_of(*d),
            entries_at(d.catalog, crit@) == cs,
            crit_sec@.len() == crit@.len(),
            forall|k: int| 0 <= k < crit@.len() ==> (#[trigger] crit_sec@[k])@ == section_of(d.active@, d.catalog.memories@[crit@[k] as int]),
            s == scope@,
            j <= crit@.len(),
            text@ == heading(s) + concat(critical_pieces(in_section(d.active@, cs.take(j as int), s))),
            counted_matches(counted@, in_section(d.active@, cs.take(j as int), s), critical_pieces(in_section(d.active@, cs.take(j as int), s))),
        decreases crit.len() - j,
    {
        let m = &d.catalog.memories[crit[j]];
        let ghost before = in_section(d.active@, cs.take(j as int), s);
        assert(cs.take(j + 1).drop_last() =~= cs.take(j as int));
        assert(cs.take(j + 1).last() == *m);
        assert(crit_sec@[j as int]@ == section_of(d.active@, *m));
        if crit_sec[j] == *scope {
            let piece = critical_piece_chars(m);
            let ghost after = before.push(*m);
            assert(in_section(d.active@, cs.take(j + 1), s) == after);
            assert(critical_pieces(after) =~= critical_pieces(before).push(critical_piece(*m)));
            crate::text::push_all(&mut text, &piece);
            assert(critical_pieces(after).drop_last() =~= critical_pieces(before));
            assert(text@ =~= heading(s) + concat(critical_pieces(after)));
            let chars = crate::text::utf16_count_wide(&piece);
            let bytes = crate::text::utf8_count_wide(&piece);
            counted.push(Counted { id: m.id.clone(), chars, bytes });
        } else {
            assert(in_section(d.active@, cs.take(j + 1), s) == before);
        }
        j += 1;
    }
    assert(cs.take(crit.len() as int) =~= cs);
    let ghost crit_in = in_section(d.active@, cs, s);
    let ghost crit_text = heading(s) + concat(critical_pieces(crit_in));
    let mut k: usize = 0;
    let mut first = true;
    assert(ks.take(0) =~= Seq::<MemoryEntry>::empty());
    assert(knowledge_pieces(in_section(d.active@, ks.take(0), s)) =~= Seq::<Seq<char>>::empty());
    assert(counted@ =~= counted@ + Seq::<Counted>::empty());
    while k < know.len()
        invariant
            in_bounds(d.catalog, know@),
            ks == knowledge_of(*d),
            entries_at(d.catalog, know@) == ks,
            know_sec@.len() == know@.len(),
            forall|q: int| 0 <= q < know@.len() ==> (#[trigger] know_sec@[q])@ == section_of(d.active@, d.catalog.memories@[know@[q] as int]),
            s == scope@,
            k <= know@.len(),
            first == (in_section(d.active@, ks.take(k as int), s).len() == 0),
            text@ == crit_text + concat(knowledge_pieces(in_section(d.active@, ks.take(k as int), s))),
            counted_matches(
                counted@,
                crit_in + in_section(d.active@, ks.take(k as int), s),
                critical_pieces(crit_in) + knowledge_pieces(in_section(d.active@, ks.take(k as int), s)),
            ),
        decreases know.len() - k,
    {
        let m = &d.catalog.memories[know[k]];
        let ghost before = in_section(d.active@, ks.take(k as int), s);
        assert(ks.take(k + 1).drop_last() =~= ks.take(k as int));
        assert(ks.take(k + 1).last() == *m);
        assert(know_sec@[k as int]@ == section_of(d.active@, *m));
        if know_sec[k] == *scope {
            let piece = knowledge_piece_chars(m, first);
            let ghost after = before.push(*m);
            assert(in_section(d.active@, ks.take(k + 1), s) == after);
            assert(knowledge_pieces(after) =~= knowledge_pieces(before).push(knowledge_piece(*m, first)));
            crate::text::push_all(&mut text, &piece);
            assert(knowledge_pieces(after).drop_last() =~= knowledge_pieces(before));
            assert(text@ =~= crit_text + concat(knowledge_pieces(after)));
            let chars = crate::text::utf16_count_wide(&piece);
            let bytes = crate::text::utf8_count_wide(&piece);
            counted.push(Counted { id: m.id.clone(), chars, bytes });
            assert(crit_in + after =~= (crit_in + before).push(*m));
            assert(critical_pieces(crit_in) + knowledge_pieces(after) =~= (critical_pieces(crit_in)
                + knowledge_pieces(before)).push(knowledge_piece(*m, first)));
            first = false;
        } else {
            assert(in_section(d.active@, ks.take(k + 1), s) == before);
        }
        k += 1;
    }
    assert(ks.take(know.len() as int) =~= ks);
    proof {
        crate::text::lemma_concat_append(critical_pieces(crit_in), knowledge_pieces(in_section(d.active@, ks, s)));
    }
    assert(text@ =~= section_text(*d, s));
    (text, counted)
}


/// The texts of the sections an answer prints, in order.
pub open spec fn section_texts(d: Delivery) -> Seq<Seq<char>> {
    section_list(d).map_values(|s: Seq<char>| section_text(d, s))
}

/// No section, and no piece of one, is longer than the answer's body.
proof fn lemma_section_bounds(d: Delivery, k: int)
    requires
        0 <= k < section_list(d).len(),
    ensures
        utf16_len(section_text(d, section_list(d)[k])) <= utf16_len(body_text(d)),
        utf8_len(section_text(d, section_list(d)[k])) <= utf8_len(body_text(d)),
        forall|i: int|
            0 <= i < section_pieces(d, section_list(d)[k]).len() ==> utf16_len(
                #[trigger] section_pieces(d, section_list(d)[k])[i],
            ) <= utf16_len(body_text(d)) && utf8_len(section_pieces(d, section_list(d)[k])[i])
                <= utf8_len(body_text(d)),
{
    let texts = section_texts(d);
    let scope = section_list(d)[k];
    assert(texts[k] == section_text(d, scope));
    crate::text::lemma_concat_piece_le(texts, k);
    let a = marker_line(d);
    let b = concat(texts);
    crate::text::lemma_utf16_len_add(a, b);
    crate::text::lemma_utf8_len_add(a, b);
    crate::text::lemma_utf16_len_add(a + b, retracted_block(d));
    crate::text::lemma_utf8_len_add(a + b, retracted_block(d));
    crate::text::lemma_utf16_len_add(a + b + retracted_block(d), announced_block(d));
    crate::text::lemma_utf8_len_add(a + b + retracted_block(d), announced_block(d));
    crate::text::lemma_utf16_len_add(a + b + retracted_block(d) + announced_block(d), session_block(d));
    crate::text::lemma_utf8_len_add(a + b + retracted_block(d) + announced_block(d), session_block(d));
    crate::text::lemma_utf16_len_add(heading(scope), concat(section_pieces(d, scope)));
    crate::text::lemma_utf8_len_add(heading(scope), concat(section_pieces(d, scope)));
    assert forall|i: int|
        0 <= i < section_pieces(d, scope).len() implies utf16_len(
            #[trigger] section_pieces(d, scope)[i],
        ) <= utf16_len(body_text(d)) && utf8_len(section_pieces(d, scope)[i]) <= utf8_len(
            body_text(d),
        ) by {
        crate::text::lemma_concat_piece_le(section_pieces(d, scope), i);
    }
}

/// The length of the body is the length of its parts.
proof fn lemma_body_parts(d: Delivery)
    ensures
        utf16_len(body_text(d)) == utf16_len(marker_line(d)) + utf16_len(concat(section_texts(d)))
            + utf16_len(retracted_block(d)) + utf16_len(announced_block(d)) + utf16_len(session_block(d)),
{
    let a = marker_line(d);
    let b = concat(section_texts(d));
    crate::text::lemma_utf16_len_add(a, b);
    crate::text::lemma_utf16_len_add(a + b, retracted_block(d));
    crate::text::lemma_utf16_len_add(a + b + retracted_block(d), announced_block(d));
    crate::text::lemma_utf16_len_add(a + b + retracted_block(d) + announced_block(d), session_block(d));
}

/// A prefix of the section texts is no longer than all of them.
proof fn lemma_concat_prefix_le(texts: Seq<Seq<char>>, k: int)
    requires
        0 <= k <= texts.len(),
    ensures
        utf16_len(concat(texts.take(k))) <= utf16_len(concat(texts)),
{
    crate::text::lemma_concat_append(texts.take(k), texts.skip(k));
    assert(texts.take(k) + texts.skip(k) =~= texts);
    crate::text::lemma_utf16_len_add(concat(texts.take(k)), concat(texts.skip(k)));
}

/// The sections an answer prints, in order.
fn section_scopes(d: &Delivery, crit: &Vec<usize>, crit_sec: &Vec<String>, know: &Vec<usize>, know_sec: &Vec<String>) -> (list: Vec<String>)
    requires
        entries_at(d.catalog, crit@) == critical_of(*d),
        entries_at(d.catalog, know@) == knowledge_of(*d),
        crit_sec@.len() == crit@.len(),
        know_sec@.len() == know@.len(),
        forall|k: int| 0 <= k < crit@.len() ==> (#[trigger] crit_sec@[k])@ == section_of(d.active@, d.catalog.memories@[crit@[k] as int]),
        forall|k: int| 0 <= k < know@.len() ==> (#[trigger] know_sec@[k])@ == section_of(d.active@, d.catalog.memories@[know@[k] as int]),
    ensures
        string_views(list@) == section_list(*d),
{
    let ghost all = critical_of(*d) + knowledge_of(*d);
    let ghost nc: int = crit@.len() as int;
    let mut list: Vec<String> = Vec::new();
    let mut j: usize = 0;
    assert(all.take(0) =~= Seq::<MemoryEntry>::empty());
    while j < crit.len()
        invariant
            all == critical_of(*d) + knowledge_of(*d),
            entries_at(d.catalog, crit@) == critical_of(*d),
            crit_sec@.len() == crit@.len(),
            forall|k: int| 0 <= k < crit@.len() ==> (#[trigger] crit_sec@[k])@ == section_of(d.active@, d.catalog.memories@[crit@[k] as int]),
            j <= crit@.len(),
            string_views(list@) == sections_for(d.active@, all.take(j as int)),
        decreases crit.len() - j,
    {
        assert(all.take(j + 1).drop_last() =~= all.take(j as int));
        assert(all.take(j + 1).last() == all[j as int]);
        assert(all[j as int] == critical_of(*d)[j as int]);
        assert(crit_sec@[j as int]@ == section_of(d.active@, all[j as int]));
        insert_section(&mut list, crit_sec[j].clone());
        j += 1;
    }
    let mut k: usize = 0;
    while k < know.len()
        invariant
            all == critical_of(*d) + knowledge_of(*d),
            nc == crit@.len(),
            critical_of(*d).len() == nc,
            entries_at(d.catalog, know@) == knowledge_of(*d),
            know_sec@.len() == know@.len(),
            forall|q: int| 0 <= q < know@.len() ==> (#[trigger] know_sec@[q])@ == section_of(d.active@, d.catalog.memories@[know@[q] as int]),
            k <= know@.len(),
            string_views(list@) == sections_for(d.active@, all.take(nc + k)),
        decreases know.len() - k,
    {
        assert(all.take(nc + k + 1).drop_last() =~= all.take(nc + k));
        assert(all.take(nc + k + 1).last() == all[nc + k]);
        assert(all[nc + k] == knowledge_of(*d)[k as int]);
        assert(know_sec@[k as int]@ == section_of(d.active@, all[nc + k]));
        insert_section(&mut list, know_sec[k].clone());
        k += 1;
    }
    assert(all.take(nc + know@.len() as int) =~= all);
    list
}

/// The block of withdrawals.
fn retracted_chars(d: &Delivery) -> (out: Vec<char>)
    ensures
        out@ == retracted_block(*d),
{
    let rs = &d.needs.retracted;
    let mut out: Vec<char> = Vec::new();
    if rs.len() == 0 {
        return out;
    }
    let ghost f = |r: crate::context::Retraction| retraction_line(r);
    crate::text::push_str(&mut out, "== retracted ==\n");
    let ghost head = out@;
    let mut i: usize = 0;
    assert(rs@.take(0).map_values(f) =~= Seq::<Seq<char>>::empty());
    while i < rs.len()
        invariant
            rs == &d.needs.retracted,
            i <= rs@.len(),
            head == "== retracted ==\n"@,
            f == (|r: crate::context::Retraction| retraction_line(r)),
            out@ == head + concat(rs@.take(i as int).map_values(f)),
        decreases rs.len() - i,
    {
        let r = &rs[i];
        let ghost before = out@;
        crate::text::push_str(&mut out, "- ");
        crate::text::push_str(&mut out, r.id.as_str());
        crate::text::push_str(&mut out, " (");
        crate::text::push_str(&mut out, r.reason.as_str());
        crate::text::push_str(&mut out, ")\n");
        let ghost prev = rs@.take(i as int).map_values(f);
        assert(f(*r) == retraction_line(*r));
        assert(out@ =~= before + f(*r));
        assert(rs@.take(i + 1).map_values(f) =~= prev.push(f(*r)));
        assert(prev.push(f(*r)).drop_last() =~= prev);
        assert(concat(prev.push(f(*r))) == concat(prev) + f(*r));
        assert(out@ =~= head + (concat(prev) + f(*r)));
        i += 1;
    }
    assert(rs@.take(rs.len() as int) =~= rs@);
    out
}

impl Delivery<'_> {
    /// The scopes this event turned on that nothing it delivers belongs to,
    /// in the order they were turned on, or nothing at all when the store does
    /// not ask for them.
    pub fn announced_scopes(&self) -> (scopes: Vec<String>)
        requires
            self.catalog.well_formed(),
        ensures
            string_views(scopes@) == announced(*self),
    {
        let mut out: Vec<String> = Vec::new();
        if !self.announce_empty_scopes {
            return out;
        }
        let ids = self.needs.delivered_ids();
        let pres = present_positions(self.catalog, &ids);
        let ghost ms = present(self.catalog, needs_delivered(*self.needs));
        assert(entries_at(self.catalog, pres@) == ms);
        let acts = self.activated;
        let mut i: usize = 0;
        while i < acts.len()
            invariant
                acts == self.activated,
                self.announce_empty_scopes,
                in_bounds(self.catalog, pres@),
                entries_at(self.catalog, pres@) == ms,
                ms == present(self.catalog, needs_delivered(*self.needs)),
                i <= acts@.len(),
                string_views(out@) == undelivered(*self, acts@.take(i as int)),
            decreases acts.len() - i,
        {
            let scope = &acts[i];
            assert(acts@.take(i + 1).drop_last() =~= acts@.take(i as int));
            assert(acts@.take(i + 1).last() == *scope);
            let mut found = false;
            let mut j: usize = 0;
            while j < pres.len()
                invariant
                    in_bounds(self.catalog, pres@),
                    entries_at(self.catalog, pres@) == ms,
                    j <= pres@.len(),
                    found == exists|q: int| 0 <= q < j && holds(#[trigger] ms[q].scopes@, scope@),
                decreases pres.len() - j,
            {
                assert(ms[j as int] == self.catalog.memories@[pres@[j as int] as int]);
                if crate::catalog::holds_string(&self.catalog.memories[pres[j]].scopes, scope) {
                    found = true;
                }
                j += 1;
            }
            assert(found == delivering(*self, scope@));
            if !found {
                out.push(scope.clone());
                assert(string_views(out@) =~= undelivered(*self, acts@.take(i as int)).push(scope@));
            }
            i += 1;
        }
        assert(acts@.take(acts.len() as int) =~= acts@);
        out
    }
}

/// The block naming the announced scopes.
fn announced_chars(d: &Delivery) -> (out: Vec<char>)
    requires
        d.catalog.well_formed(),
    ensures
        out@ == announced_block(*d),
{
    let scopes = d.announced_scopes();
    let ghost v = string_views(scopes@);
    let mut out: Vec<char> = Vec::new();
    if scopes.len() == 0 {
        return out;
    }
    let ghost f = |s: Seq<char>| scope_line(s);
    crate::text::push_str(&mut out, "== scopes activated ==\n");
    let ghost head = out@;
    let mut i: usize = 0;
    assert(v.take(0).map_values(f) =~= Seq::<Seq<char>>::empty());
    while i < scopes.len()
        invariant
            v == string_views(scopes@),
            i <= scopes@.len(),
            head == "== scopes activated ==\n"@,
            f == (|s: Seq<char>| scope_line(s)),
            out@ == head + concat(v.take(i as int).map_values(f)),
        decreases scopes.len() - i,
    {
        let ghost before = out@;
        crate::text::push_str(&mut out, scopes[i].as_str());
        crate::text::push_str(&mut out, "\n");
        assert(f(v[i as int]) == scope_line(v[i as int]));
        assert(out@ =~= before + f(v[i as int]));
        assert(v[i as int] == scopes@[i as int]@);
        let ghost prev = v.take(i as int).map_values(f);
        assert(v.take(i + 1).map_values(f) =~= prev.push(f(v[i as int])));
        assert(prev.push(f(v[i as int])).drop_last() =~= prev);
        assert(concat(prev.push(f(v[i as int]))) == concat(prev) + f(v[i as int]));
        assert(out@ =~= head + (concat(prev) + f(v[i as int])));
        i += 1;
    }
    assert(v.take(scopes.len() as int) =~= v);
    out
}

/// The line a session start ends with.
fn session_chars(d: &Delivery) -> (out: Vec<char>)
    ensures
        out@ == session_block(*d),
{
    let mut out: Vec<char> = Vec::new();
    if d.session_start {
        crate::text::push_str(&mut out, "session_key: ");
        crate::text::push_str(&mut out, d.key.to_string().as_str());
        crate::text::push_str(&mut out, "\n");
    }
    out
}

/// The answer without any notice, with the accounting of its text.
fn render_body(d: &Delivery) -> (r: Rendered)
    requires
        d.catalog.well_formed(),
        utf16_len(body_text(*d)) <= u64::MAX,
        utf8_len(body_text(*d)) <= u64::MAX,
    ensures
        r.text@ == body_text(*d),
        r.sections@.len() == section_list(*d).len(),
        forall|k: int| 0 <= k < r.sections@.len() ==> section_matches(*d, #[trigger] r.sections@[k], section_list(*d)[k]),
        r.overhead_chars == utf16_len(marker_line(*d)) + utf16_len(retracted_block(*d))
            + utf16_len(announced_block(*d)) + utf16_len(session_block(*d)),
        sections_chars(r.sections@) == utf16_len(concat(section_texts(*d))),
{
    let ids = d.needs.delivered_ids();
    let pres = present_positions(d.catalog, &ids);
    let crit = positions_of_kind(d.catalog, &pres, MemoryKind::Critical);
    let know_unsorted = positions_of_kind(d.catalog, &pres, MemoryKind::Knowledge);
    let know = sort_positions_by_id(d.catalog, &know_unsorted);
    let crit_sec = sections_of_positions(d.active, d.catalog, &crit);
    let know_sec = sections_of_positions(d.active, d.catalog, &know);
    let list = section_scopes(d, &crit, &crit_sec, &know, &know_sec);
    let ghost texts = section_texts(*d);
    let ghost scopes = section_list(*d);

    let mut out: Vec<char> = Vec::new();
    crate::text::push_str(&mut out, "[forgetmenot] context ");
    crate::text::push_str(&mut out, d.key.to_string().as_str());
    crate::text::push_str(&mut out, "\n");
    let ghost marker = out@;
    assert(marker == marker_line(*d));
    let mut overhead: u128 = crate::text::utf16_count_wide(&out);
    let mut sections: Vec<Section> = Vec::new();
    let mut sum: u128 = 0;
    let mut k: usize = 0;
    assert(texts.take(0) =~= Seq::<Seq<char>>::empty());
    while k < list.len()
        invariant
            d.catalog.well_formed(),
            utf16_len(body_text(*d)) <= u64::MAX,
            utf8_len(body_text(*d)) <= u64::MAX,
            in_bounds(d.catalog, crit@),
            in_bounds(d.catalog, know@),
            entries_at(d.catalog, crit@) == critical_of(*d),
            entries_at(d.catalog, know@) == knowledge_of(*d),
            crit_sec@.len() == crit@.len(),
            know_sec@.len() == know@.len(),
            forall|q: int| 0 <= q < crit@.len() ==> (#[trigger] crit_sec@[q])@ == section_of(d.active@, d.catalog.memories@[crit@[q] as int]),
            forall|q: int| 0 <= q < know@.len() ==> (#[trigger] know_sec@[q])@ == section_of(d.active@, d.catalog.memories@[know@[q] as int]),
            string_views(list@) == scopes,
            scopes == section_list(*d),
            texts == section_texts(*d),
            marker == marker_line(*d),
            overhead == utf16_len(marker),
            k <= list@.len(),
            out@ == marker + concat(texts.take(k as int)),
            sections@.len() == k,
            forall|q: int| 0 <= q < k ==> section_matches(*d, #[trigger] sections@[q], scopes[q]),
            sum == utf16_len(concat(texts.take(k as int))),
            sections_chars(sections@) == sum,
        decreases list.len() - k,
    {
        let scope = &list[k];
        assert(scopes[k as int] == scope@);
        assert(texts[k as int] == section_text(*d, scope@));
        let (text, counted) = render_section(d, &crit, &crit_sec, &know, &know_sec, scope);
        proof {
            lemma_section_bounds(*d, k as int);
            crate::text::lemma_utf16_len_add(concat(texts.take(k as int)), texts[k as int]);
            lemma_concat_prefix_le(texts, k + 1);
            lemma_body_parts(*d);
            assert(texts.take(k + 1).drop_last() =~= texts.take(k as int));
            assert(texts.take(k + 1).last() == texts[k as int]);
        }
        crate::text::push_all(&mut out, &text);
        assert(texts.take(k + 1).drop_last() =~= texts.take(k as int));
        assert(out@ =~= marker + concat(texts.take(k + 1)));
        let chars = crate::text::utf16_count_wide(&text);
        let ghost pieces = section_pieces(*d, scope@);
        let mut memories: Vec<SectionMemory> = Vec::new();
        let mut i: usize = 0;
        while i < counted.len()
            invariant
                utf16_len(body_text(*d)) <= u64::MAX,
                utf8_len(body_text(*d)) <= u64::MAX,
                scopes == section_list(*d),
                k < scopes.len(),
                scope@ == scopes[k as int],
                pieces == section_pieces(*d, scope@),
                counted_matches(counted@, section_members(*d, scope@), pieces),
                forall|q: int| 0 <= q < pieces.len() ==> utf16_len(#[trigger] pieces[q]) <= utf16_len(body_text(*d)) && utf8_len(pieces[q]) <= utf8_len(body_text(*d)),
                i <= counted@.len(),
                memories@.len() == i,
                forall|q: int| 0 <= q < i ==> {
                    &&& (#[trigger] memories@[q]).id@ == section_members(*d, scope@)[q].id@
                    &&& memories@[q].chars == utf16_len(pieces[q])
                    &&& memories@[q].bytes == utf8_len(pieces[q])
                },
            decreases counted.len() - i,
        {
            let c = &counted[i];
            assert(utf16_len(pieces[i as int]) <= utf16_len(body_text(*d)));
            memories.push(SectionMemory { id: c.id.clone(), chars: c.chars as u64, bytes: c.bytes as u64 });
            i += 1;
        }
        let ghost old_sections = sections@;
        sections.push(Section { scope: scope.clone(), chars: chars as u64, memories });
        sum = sum + chars;
        assert(sections@.drop_last() =~= old_sections);
        k += 1;
    }
    assert(texts.take(list.len() as int) =~= texts);
    let retracted = retracted_chars(d);
    let announced = announced_chars(d);
    let session = session_chars(d);
    crate::text::push_all(&mut out, &retracted);
    crate::text::push_all(&mut out, &announced);
    crate::text::push_all(&mut out, &session);
    assert(out@ =~= body_text(*d));
    proof {
        lemma_body_parts(*d);
    }
    overhead = overhead + crate::text::utf16_count_wide(&retracted) + crate::text::utf16_count_wide(&announced)
        + crate::text::utf16_count_wide(&session);
    proof {
        let a = marker_line(*d);
        let b = concat(texts);
        crate::text::lemma_utf16_len_add(a, b);
        crate::text::lemma_utf16_len_add(a + b, retracted_block(*d));
        crate::text::lemma_utf16_len_add(a + b + retracted_block(*d), announced_block(*d));
        crate::text::lemma_utf16_len_add(a + b + retracted_block(*d) + announced_block(*d), session_block(*d));
    }
    Rendered { text: crate::text::string_of(&out), sections, overhead_chars: overhead as u64 }
}


/// The paragraph that opens an answer the harness will show as a preview and
/// a file path. Addressed to the model, and short enough to be inside the part
/// of the preview that is never cut.
pub fn file_notice(characters: u64, threshold: u64) -> (notice: String)
    ensures
        notice@ == notice_text(characters as nat, threshold as nat),
{
    string_of_chars(&notice_chars(characters, threshold))
}

fn notice_chars(characters: u64, threshold: u64) -> (out: Vec<char>)
    ensures
        out@ == notice_text(characters as nat, threshold as nat),
{
    let mut out: Vec<char> = Vec::new();
    crate::text::push_str(&mut out, "[forgetmenot] READ THE FILE FIRST. This hook answer is ");
    crate::text::push_all(&mut out, &crate::text::decimal_chars(characters));
    crate::text::push_str(&mut out, " characters, more than the ");
    crate::text::push_all(&mut out, &crate::text::decimal_chars(threshold));
    crate::text::push_str(&mut out, " that the harness shows in full. The harness has saved the whole answer to the file named above (\"Full output saved to\") and shows only a preview of it here. The answer is critical memories: rules that bind this session, and most of them are only in the file. Read that file in full with the Read tool before doing anything else, whatever the preview or the harness text around it says. Nothing in the preview replaces the file.");
    out
}

fn string_of_chars(chars: &Vec<char>) -> (s: String)
    ensures
        s@ == chars@,
{
    crate::text::string_of(chars)
}

impl Rendered {
    /// The length of the whole text, in the UTF-16 code units the harness
    /// measures a hook answer in.
    pub fn chars(&self) -> (n: u64)
        requires
            utf16_len(self.text@) <= u64::MAX,
        ensures
            n == utf16_len(self.text@),
    {
        let n = crate::text::utf16_count_wide(&crate::text::chars_of(self.text.as_str()));
        n as u64
    }
}

/// Render the text for one event and account for every character of it.
/// Empty sections are left out entirely.
///
/// An answer longer than the store's threshold opens with [`file_notice`]:
/// past that length the harness writes the answer to a file and shows the
/// model a preview. The answer is measured the way the harness measures it, in
/// UTF-16 code units. The notice belongs to no scope, so it counts as
/// overhead, and every character of the text is either overhead or in exactly
/// one section.
pub fn render(d: &Delivery) -> (r: Rendered)
    requires
        d.catalog.well_formed(),
        utf16_len(render_text(*d)) <= u64::MAX,
        utf8_len(render_text(*d)) <= u64::MAX,
    ensures
        r.text@ == render_text(*d),
        r.sections@.len() == section_list(*d).len(),
        forall|k: int| 0 <= k < r.sections@.len() ==> section_matches(*d, #[trigger] r.sections@[k], section_list(*d)[k]),
        r.overhead_chars == utf16_len(overhead_text(*d)),
        r.overhead_chars + sections_chars(r.sections@) == utf16_len(r.text@),
{
    proof {
        lemma_body_parts(*d);
        if has_notice(*d) {
            let t = d.answer_file_threshold->0;
            let head = notice_text(utf16_len(body_text(*d)), t as nat) + "\n\n"@;
            crate::text::lemma_utf16_len_add(head, body_text(*d));
            crate::text::lemma_utf8_len_add(head, body_text(*d));
        }
    }
    let body = render_body(d);
    let threshold = match d.answer_file_threshold {
        None => {
            proof {
                lemma_overhead_parts(*d);
            }
            return body;
        },
        Some(t) => t,
    };
    let characters = body.chars();
    if characters <= threshold {
        proof {
            lemma_overhead_parts(*d);
        }
        return body;
    }
    let mut text = notice_chars(characters, threshold);
    crate::text::push_str(&mut text, "\n\n");
    let head_chars = crate::text::utf16_count_wide(&text);
    let ghost head = text@;
    crate::text::push_str(&mut text, body.text.as_str());
    proof {
        crate::text::lemma_utf16_len_add(head, body_text(*d));
        lemma_overhead_parts(*d);
    }
    Rendered {
        text: crate::text::string_of(&text),
        sections: body.sections,
        overhead_chars: (head_chars + body.overhead_chars as u128) as u64,
    }
}

/// The length of the overhead is the length of its parts.
proof fn lemma_overhead_parts(d: Delivery)
    ensures
        utf16_len(overhead_text(d)) == (if has_notice(d) {
            utf16_len(notice_text(utf16_len(body_text(d)), d.answer_file_threshold->0 as nat) + "\n\n"@)
        } else {
            0
        }) + utf16_len(marker_line(d)) + utf16_len(retracted_block(d)) + utf16_len(announced_block(d))
            + utf16_len(session_block(d)),
{
    let notice = if has_notice(d) {
        notice_text(utf16_len(body_text(d)), d.answer_file_threshold->0 as nat) + "\n\n"@
    } else {
        Seq::empty()
    };
    let a = notice + marker_line(d);
    crate::text::lemma_utf16_len_add(notice, marker_line(d));
    crate::text::lemma_utf16_len_add(a, retracted_block(d));
    crate::text::lemma_utf16_len_add(a + retracted_block(d), announced_block(d));
    crate::text::lemma_utf16_len_add(a + retracted_block(d) + announced_block(d), session_block(d));
}


/// Which activated scopes deliver nothing does not depend on the threshold.
proof fn lemma_undelivered_same(d: Delivery, e: Delivery, activated: Seq<String>)
    requires
        d.catalog == e.catalog,
        d.needs == e.needs,
    ensures
        undelivered(d, activated) == undelivered(e, activated),
    decreases activated.len(),
{
    if activated.len() > 0 {
        lemma_undelivered_same(d, e, activated.drop_last());
    }
}

/// The notice belongs to no scope: two answers to the same delivery, one with
/// a threshold that the other lacks or sets elsewhere, have the same sections
/// with the same text in each, the same body, and differ only in what opens
/// them, which is counted as overhead.
pub proof fn lemma_notice_leaves_sections(d: Delivery, e: Delivery)
    requires
        d.key == e.key,
        d.catalog == e.catalog,
        d.needs == e.needs,
        d.active == e.active,
        d.activated == e.activated,
        d.announce_empty_scopes == e.announce_empty_scopes,
        d.session_start == e.session_start,
    ensures
        section_list(d) == section_list(e),
        forall|scope: Seq<char>| section_text(d, scope) == section_text(e, scope),
        body_text(d) == body_text(e),
        render_text(e) == (if has_notice(e) {
            notice_text(utf16_len(body_text(d)), e.answer_file_threshold->0 as nat) + "\n\n"@ + body_text(d)
        } else {
            body_text(d)
        }),
        overhead_text(e) == (if has_notice(e) {
            notice_text(utf16_len(body_text(d)), e.answer_file_threshold->0 as nat) + "\n\n"@
        } else {
            Seq::empty()
        }) + marker_line(d) + retracted_block(d) + announced_block(d) + session_block(d),
{
    assert(section_list(d) == section_list(e));
    assert(section_list(d).map_values(|s: Seq<char>| section_text(d, s)) =~= section_list(e).map_values(
        |s: Seq<char>| section_text(e, s),
    ));
    assert(marker_line(d) == marker_line(e));
    assert(retracted_block(d) == retracted_block(e));
    lemma_undelivered_same(d, e, d.activated@);
    assert(announced(d) == announced(e));
    assert(announced_block(d) == announced_block(e));
    assert(session_block(d) == session_block(e));
}

/// Section order is a strict order: no scope comes before itself, and it is
/// transitive.
proof fn lemma_key_lt_order(a: Seq<char>, b: Seq<char>, c: Seq<char>)
    ensures
        !key_lt(a, a),
        key_lt(a, b) && key_lt(b, c) ==> key_lt(a, c),
{
    crate::text::lemma_seq_lt_irreflexive(a);
    if key_lt(a, b) && key_lt(b, c) && seq_lt(a, b) && seq_lt(b, c) {
        crate::text::lemma_seq_lt_transitive(a, b, c);
    }
}

/// The scope printed first is one of the candidates, and no candidate comes
/// before it.
proof fn lemma_first_section_is_least(candidates: Seq<Seq<char>>)
    ensures
        candidates.len() == 0 <==> first_section(candidates) is None,
        first_section(candidates) is Some ==> candidates.contains(first_section(candidates)->0),
        first_section(candidates) is Some ==> forall|k: int|
            0 <= k < candidates.len() ==> !key_lt(#[trigger] candidates[k], first_section(candidates)->0),
    decreases candidates.len(),
{
    if candidates.len() > 0 {
        let front = candidates.drop_last();
        let last = candidates.last();
        lemma_first_section_is_least(front);
        let best = first_section(candidates)->0;
        lemma_key_lt_order(last, last, last);
        match first_section(front) {
            None => {
                assert(front.len() == 0);
                assert(candidates[0] == last);
            },
            Some(b) => {
                let k0 = choose|k: int| 0 <= k < front.len() && front[k] == b;
                assert(candidates[k0] == b);
                assert forall|k: int| 0 <= k < candidates.len() implies !key_lt(#[trigger] candidates[k], best) by {
                    if k < candidates.len() - 1 {
                        assert(candidates[k] == front[k]);
                        lemma_key_lt_order(candidates[k], last, b);
                    }
                }
            },
        }
        assert(candidates[candidates.len() - 1] == last);
    }
}

/// The active scopes among `scopes` are exactly the scopes of it that are
/// active.
proof fn lemma_active_only_holds(scopes: Seq<Seq<char>>, active: Seq<String>, x: Seq<char>)
    ensures
        active_only(scopes, active).contains(x) <==> scopes.contains(x) && holds(active, x),
    decreases scopes.len(),
{
    if scopes.len() > 0 {
        let front = scopes.drop_last();
        lemma_active_only_holds(front, active, x);
        let kept = active_only(front, active);
        if scopes.contains(x) && x != scopes.last() {
            let k = choose|k: int| 0 <= k < scopes.len() && scopes[k] == x;
            assert(front[k] == x);
        }
        if front.contains(x) {
            let k = choose|k: int| 0 <= k < front.len() && front[k] == x;
            assert(scopes[k] == x);
        }
        if holds(active, scopes.last()) {
            let out = kept.push(scopes.last());
            if kept.contains(x) {
                let k = choose|k: int| 0 <= k < kept.len() && kept[k] == x;
                assert(out[k] == x);
            }
            if out.contains(x) && x != scopes.last() {
                let k = choose|k: int| 0 <= k < out.len() && out[k] == x;
                assert(kept[k] == x);
            }
            assert(out[out.len() - 1] == scopes.last());
        }
        assert(scopes[scopes.len() - 1] == scopes.last());
    }
}

/// A memory with an active scope is printed under an active scope of its
/// own, and under the first of its active scopes in section order: `global`
/// before any other, then by id.
pub proof fn lemma_a_memory_is_printed_under_its_first_active_scope(active: Seq<String>, m: MemoryEntry)
    requires
        exists|i: int| 0 <= i < m.scopes@.len() && holds(active, #[trigger] m.scopes@[i]@),
    ensures
        holds(active, section_of(active, m)),
        exists|i: int| 0 <= i < m.scopes@.len() && #[trigger] m.scopes@[i]@ == section_of(active, m),
        forall|i: int|
            0 <= i < m.scopes@.len() && holds(active, #[trigger] m.scopes@[i]@) ==> !key_lt(
                m.scopes@[i]@,
                section_of(active, m),
            ),
{
    let scopes = string_views(m.scopes@);
    let on = active_only(scopes, active);
    let i0 = choose|i: int| 0 <= i < m.scopes@.len() && holds(active, #[trigger] m.scopes@[i]@);
    assert(scopes[i0] == m.scopes@[i0]@);
    lemma_active_only_holds(scopes, active, scopes[i0]);
    lemma_first_section_is_least(on);
    let best = first_section(on)->0;
    assert(section_of(active, m) == best);
    lemma_active_only_holds(scopes, active, best);
    let k = choose|k: int| 0 <= k < scopes.len() && scopes[k] == best;
    assert(m.scopes@[k]@ == best);
    assert forall|i: int| 0 <= i < m.scopes@.len() && holds(active, #[trigger] m.scopes@[i]@) implies !key_lt(
        m.scopes@[i]@,
        section_of(active, m),
    ) by {
        assert(scopes[i] == m.scopes@[i]@);
        lemma_active_only_holds(scopes, active, scopes[i]);
        let j = choose|j: int| 0 <= j < on.len() && on[j] == scopes[i];
        assert(!key_lt(on[j], best));
    }
}

} // verus!
