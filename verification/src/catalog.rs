//! The store as the rest of the library reads it: the memories it holds, the
//! scopes that forget themselves, and the store's own behaviour settings.
//!
//! Parsing the repository into this shape is not done here; what is here is
//! what every decision about a context reads.
use vstd::prelude::*;

use crate::events::TriggerField;
use crate::text::{lemma_seq_lt_irreflexive, seq_lt, strictly_sorted};

verus! {

/// The views of a sequence of strings.
pub open spec fn string_views(v: Seq<String>) -> Seq<Seq<char>> {
    v.map_values(|s: String| s@)
}

/// Whether `s` is one of the strings of `v`.
pub open spec fn holds(v: Seq<String>, s: Seq<char>) -> bool {
    exists|i: int| 0 <= i < v.len() && v[i]@ == s
}

/// Whether `s` is one of the strings of `v`.
pub fn holds_string(v: &Vec<String>, s: &String) -> (found: bool)
    ensures
        found == holds(v@, s@),
{
    let mut i: usize = 0;
    while i < v.len()
        invariant
            i <= v.len(),
            forall|j: int| 0 <= j < i ==> v@[j]@ != s@,
        decreases v.len() - i,
    {
        if v[i] == *s {
            return true;
        }
        i += 1;
    }
    false
}

/// Whether a memory is a rule delivered in full or a reference delivered as
/// its description.
#[derive(Clone, Copy, Debug, PartialEq, Eq, Structural)]
pub enum MemoryKind {
    Critical,
    Knowledge,
}

/// The store's behaviour settings, from its `config.yml`.
#[derive(Clone, Debug)]
pub struct Settings {
    /// The growth in context, in tokens, after which anything delivered is
    /// delivered again; `None` never repeats anything.
    pub reminder_tokens: Option<u64>,
    /// Whether a tool call is held when a critical memory is due and unseen.
    pub interrupt_on_critical: bool,
    /// Tool names never held.
    pub interrupt_exempt_tools: Vec<String>,
    /// Tool names whose inputs and results are never matched against triggers.
    pub trigger_exempt_tools: Vec<String>,
    /// Whether a subagent starts with its parent's active scopes.
    pub subagents_inherit_scopes: bool,
    /// Whether knowledge memories are delivered as their descriptions.
    pub deliver_knowledge_index: bool,
    /// Bytes of a tool result matched against triggers.
    pub tool_result_match_limit: usize,
    /// Characters of an answer above which it opens with the file notice.
    pub answer_file_threshold: Option<u64>,
    /// Whether a scope that turned on with nothing to deliver is named.
    pub announce_empty_scopes: bool,
}

impl Settings {
    /// Everything at its default, which is what a store with no settings file
    /// has.
    pub fn defaults() -> (settings: Settings)
        ensures
            settings.reminder_tokens is None,
            settings.interrupt_on_critical,
            settings.interrupt_exempt_tools@.len() == 0,
            settings.trigger_exempt_tools@.len() == 0,
            settings.subagents_inherit_scopes,
            settings.deliver_knowledge_index,
            settings.tool_result_match_limit == 262144,
            settings.answer_file_threshold == Some(10000u64),
            !settings.announce_empty_scopes,
    {
        Settings {
            reminder_tokens: None,
            interrupt_on_critical: true,
            interrupt_exempt_tools: Vec::new(),
            trigger_exempt_tools: Vec::new(),
            subagents_inherit_scopes: true,
            deliver_knowledge_index: true,
            tool_result_match_limit: 262144,
            answer_file_threshold: Some(10000),
            announce_empty_scopes: false,
        }
    }

    /// Whether a critical arrival holds a call to `tool_name`: the store must
    /// ask for interruptions at all, and the tool must not be one it exempts.
    pub fn interrupts(&self, tool_name: Option<&String>) -> (holds_call: bool)
        ensures
            holds_call == (self.interrupt_on_critical && match tool_name {
                Some(name) => !holds(self.interrupt_exempt_tools@, name@),
                None => true,
            }),
    {
        if !self.interrupt_on_critical {
            return false;
        }
        match tool_name {
            Some(name) => !holds_string(&self.interrupt_exempt_tools, name),
            None => true,
        }
    }
}

/// One memory in the store.
#[derive(Clone, Debug)]
pub struct MemoryEntry {
    /// The id the memory is fetched by.
    pub id: String,
    pub kind: MemoryKind,
    /// The scopes the memory belongs to, as its file names them.
    pub scopes: Vec<String>,
    /// The blob id of the file, as hex.
    pub version: String,
    /// The name the file gives the memory.
    pub name: String,
    /// The title the file gives the memory.
    pub title: String,
    /// The one-line description.
    pub description: String,
    /// Who the memory came from: `user`, `assistant`, or whatever the file says.
    pub source: String,
    /// When the file says it was last modified, in ISO 8601.
    pub modified: Option<String>,
    /// The body, everything after the front matter.
    pub body: String,
    /// For the message a scope file carries, the scope that carries it. A
    /// message has no file of its own and no id to fetch it by.
    pub message_of: Option<String>,
}

/// The text a context is given for a memory: a critical memory's body, a
/// knowledge memory's description.
pub open spec fn delivered_text(m: MemoryEntry) -> Seq<char> {
    match m.kind {
        MemoryKind::Critical => m.body@,
        MemoryKind::Knowledge => m.description@,
    }
}

/// Whether a memory is due in a context working in `active`: one of its
/// scopes is active.
pub open spec fn due_in(m: MemoryEntry, active: Seq<String>) -> bool {
    exists|i: int| 0 <= i < m.scopes@.len() && holds(active, #[trigger] m.scopes@[i]@)
}

/// One trigger of a scope: a regular expression, matched against the texts
/// of one field of an event or, with no field named, against every text.
#[derive(Clone, Debug)]
pub struct Trigger {
    /// The field matched; `None` is every field.
    pub on: Option<TriggerField>,
    pub pattern: String,
    /// The one machine the trigger fires on, when it is limited to one.
    pub machine: Option<String>,
}

/// One scope that has a file in the store.
#[derive(Clone, Debug)]
pub struct ScopeEntry {
    pub id: String,
    /// The scopes this one turns on with it.
    pub implies: Vec<String>,
    pub triggers: Vec<Trigger>,
    /// The scope's `forget` rule: the growth in context, in tokens, since its
    /// last activation after which it turns itself off.
    pub forget: Option<u64>,
    /// The text the scope delivers whenever it is active; `None` when it
    /// delivers none.
    pub message: Option<String>,
    /// The blob id of the file, as hex.
    pub version: String,
}

/// One catalog snapshot of the store.
#[derive(Clone, Debug)]
pub struct Catalog {
    /// Every memory, ordered by id.
    pub memories: Vec<MemoryEntry>,
    /// Every scope that has a file, ordered by id.
    pub scopes: Vec<ScopeEntry>,
    pub settings: Settings,
}

/// The `forget` rule the first file of `scope` among `scopes` gives.
pub open spec fn forget_rule_of(scopes: Seq<ScopeEntry>, scope: Seq<char>) -> Option<u64>
    decreases scopes.len(),
{
    if scopes.len() == 0 {
        None
    } else if scopes[0].id@ == scope {
        scopes[0].forget
    } else {
        forget_rule_of(scopes.skip(1), scope)
    }
}

/// The ids of a sequence of memories.
pub open spec fn memory_ids(m: Seq<MemoryEntry>) -> Seq<Seq<char>> {
    m.map_values(|e: MemoryEntry| e.id@)
}

impl Catalog {
    /// Every memory id occurs once, and the memories are ordered by id.
    pub open spec fn well_formed(&self) -> bool {
        strictly_sorted(memory_ids(self.memories@))
    }

    /// Whether the store holds a memory with this id.
    pub open spec fn has_memory(&self, id: Seq<char>) -> bool {
        exists|i: int| 0 <= i < self.memories@.len() && self.memories@[i].id@ == id
    }

    /// The position of the memory with this id.
    pub open spec fn position_of(&self, id: Seq<char>) -> int {
        choose|i: int| 0 <= i < self.memories@.len() && self.memories@[i].id@ == id
    }

    /// The memory with this id.
    pub open spec fn memory_spec(&self, id: Seq<char>) -> Option<MemoryEntry> {
        if self.has_memory(id) {
            Some(self.memories@[self.position_of(id)])
        } else {
            None
        }
    }

    /// Where the memory with this id is, or `None` when the store holds none.
    pub fn find(&self, id: &String) -> (found: Option<usize>)
        ensures
            match found {
                Some(i) => i < self.memories@.len() && self.memories@[i as int].id@ == id@,
                None => !self.has_memory(id@),
            },
    {
        let mut i: usize = 0;
        while i < self.memories.len()
            invariant
                i <= self.memories@.len(),
                forall|j: int| 0 <= j < i ==> self.memories@[j].id@ != id@,
            decreases self.memories.len() - i,
        {
            if self.memories[i].id == *id {
                return Some(i);
            }
            i += 1;
        }
        None
    }

    /// The `forget` rule of `scope`: the tokens since its last activation
    /// after which it turns itself off, when its file gives one.
    pub fn forget_rule(&self, scope: &String) -> (rule: Option<u64>)
        ensures
            rule == forget_rule_of(self.scopes@, scope@),
    {
        let mut i: usize = 0;
        assert(self.scopes@.skip(0) =~= self.scopes@);
        while i < self.scopes.len()
            invariant
                i <= self.scopes@.len(),
                forget_rule_of(self.scopes@, scope@) == forget_rule_of(self.scopes@.skip(i as int), scope@),
            decreases self.scopes.len() - i,
        {
            assert(self.scopes@.skip(i as int)[0] == self.scopes@[i as int]);
            if self.scopes[i].id == *scope {
                return self.scopes[i].forget;
            }
            assert(self.scopes@.skip(i as int).skip(1) =~= self.scopes@.skip(i + 1));
            i += 1;
        }
        None
    }
}

/// In a catalog whose ids are unique, one id is at one position.
pub proof fn lemma_unique_position(catalog: &Catalog, i: int, j: int)
    requires
        catalog.well_formed(),
        0 <= i < catalog.memories@.len(),
        0 <= j < catalog.memories@.len(),
        catalog.memories@[i].id@ == catalog.memories@[j].id@,
    ensures
        i == j,
{
    if i < j {
        assert(seq_lt(memory_ids(catalog.memories@)[i], memory_ids(catalog.memories@)[j]));
        lemma_seq_lt_irreflexive(catalog.memories@[i].id@);
    } else if j < i {
        assert(seq_lt(memory_ids(catalog.memories@)[j], memory_ids(catalog.memories@)[i]));
        lemma_seq_lt_irreflexive(catalog.memories@[i].id@);
    }
}

/// Whether memory `m` is due in a context working in `active`.
pub fn is_due(m: &MemoryEntry, active: &Vec<String>) -> (due: bool)
    ensures
        due == due_in(*m, active@),
{
    let mut i: usize = 0;
    while i < m.scopes.len()
        invariant
            i <= m.scopes@.len(),
            forall|j: int| 0 <= j < i ==> !holds(active@, #[trigger] m.scopes@[j]@),
        decreases m.scopes.len() - i,
    {
        if holds_string(active, &m.scopes[i]) {
            return true;
        }
        i += 1;
    }
    false
}

} // verus!
