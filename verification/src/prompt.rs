//! The text one context would be given, read from a registry snapshot and
//! rendered by the same renderer the hook answers with, without recording
//! anything against the context.
use vstd::prelude::*;

use crate::catalog::{string_views, Catalog};
use crate::context::{key_text, ContextKey, ContextState, KeyView, Needs, PreviousText};
use crate::engine::{owed_in, prompt_needs};
use crate::operations::OperationError;
use crate::registry::{states_well_formed, ContextRecord, RegistrySnapshot};
use crate::render::{render, render_text, Delivery};
use crate::routes::PromptMode;
use crate::text::{utf16_len, utf8_len};

verus! {

/// The text a context would be given, rendered without delivering it.
#[derive(Clone, Debug)]
pub struct ContextPrompt {
    /// The session key, the same form the session tools take.
    pub key: String,
    /// What to call this context in a heading.
    pub name: String,
    pub mode: PromptMode,
    /// The rendered text, empty when the mode has nothing to deliver.
    pub text: String,
    /// The UTF-8 bytes of the text.
    pub bytes: u64,
    /// The UTF-16 code units of the text, the length the model's share of it
    /// is counted from.
    pub chars: u64,
}

/// Whether `i` is the first record of context `k`.
pub open spec fn first_at(records: Seq<ContextRecord>, k: KeyView, i: int) -> bool {
    &&& 0 <= i < records.len()
    &&& records[i].key@ == k
    &&& forall|j: int| 0 <= j < i ==> (#[trigger] records[j]).key@ != k
}

/// Whether `needs` is what a context in `held` is owed in `mode`: in `Due`
/// what its next event would carry, counted against what it holds as
/// delivered; in `All` everything its scopes hold, counted against nothing
/// delivered.
pub open spec fn prompt_owed(
    catalog: &Catalog,
    held: &ContextState,
    mode: PromptMode,
    previous: Seq<PreviousText>,
    needs: Needs,
) -> bool {
    match mode {
        PromptMode::Due => owed_in(catalog, held, held.tokens, previous, needs),
        PromptMode::All => exists|nothing: ContextState| {
            &&& string_views(nothing.active@) == string_views(held.active@)
            &&& nothing.delivered@.len() == 0
            &&& #[trigger] owed_in(catalog, &nothing, held.tokens, Seq::empty(), needs)
        },
    }
}

/// Whether `d` renders the text of context `key`, in `held`, as the hook
/// would: `Due` as its next ordinary event and `All` as a session start, with
/// no scope just turned on and the store's file notice applied to both.
pub open spec fn prompt_delivery(
    d: Delivery,
    key: ContextKey,
    catalog: Catalog,
    needs: Needs,
    held: ContextState,
    mode: PromptMode,
) -> bool {
    &&& *d.key == key
    &&& *d.catalog == catalog
    &&& *d.needs == needs
    &&& *d.active == held.active
    &&& d.activated@.len() == 0
    &&& !d.announce_empty_scopes
    &&& d.session_start == (mode == PromptMode::All)
    &&& d.answer_file_threshold == catalog.settings.answer_file_threshold
}

/// Whether nothing at all is owed, so that nothing is answered.
pub open spec fn owes_nothing(n: Needs) -> bool {
    n.new@.len() == 0 && n.changed@.len() == 0 && n.stale@.len() == 0 && n.retracted@.len() == 0
}

/// The text of a prompt: nothing when nothing is owed, which is how an event
/// owed nothing is answered, and the rendering otherwise.
pub open spec fn prompt_text(d: Delivery) -> Seq<char> {
    if owes_nothing(*d.needs) {
        Seq::empty()
    } else {
        render_text(d)
    }
}

/// Whether every text the context at `i` could be given in `mode` has lengths
/// a `u64` can count.
pub open spec fn prompt_fits(
    records: Seq<ContextRecord>,
    i: int,
    key: ContextKey,
    catalog: Catalog,
    mode: PromptMode,
    previous: Seq<PreviousText>,
) -> bool {
    forall|needs: Needs, d: Delivery|
        #![trigger prompt_owed(&catalog, &records[i].state, mode, previous, needs), render_text(d)]
        prompt_owed(&catalog, &records[i].state, mode, previous, needs)
            && prompt_delivery(d, key, catalog, needs, records[i].state, mode)
            ==> utf16_len(render_text(d)) <= u64::MAX && utf8_len(render_text(d)) <= u64::MAX
}

/// Where the first record of context `key` is, if any is.
fn find_context(records: &Vec<ContextRecord>, key: &ContextKey) -> (at: Option<usize>)
    ensures
        match at {
            Some(i) => first_at(records@, key@, i as int),
            None => forall|j: int| 0 <= j < records@.len() ==> (#[trigger] records@[j]).key@ != key@,
        },
{
    let mut i: usize = 0;
    while i < records.len()
        invariant
            i <= records@.len(),
            forall|j: int| 0 <= j < i ==> (#[trigger] records@[j]).key@ != key@,
        decreases records@.len() - i,
    {
        if crate::registry::same_key(&records[i].key, key) {
            return Some(i);
        }
        i += 1;
    }
    None
}

/// The text context `key` would be given at its next hook event (`Due`), or
/// the whole of what its active scopes hold (`All`), read from `snapshot`.
///
/// Nothing is recorded and no context is created, so a key no record of the
/// snapshot has is refused as unknown. A context owed nothing has no text.
/// `previous` is the text each memory had at the version the context last
/// received, which `Due` compares the current text with.
pub fn context_prompt(
    snapshot: &RegistrySnapshot,
    key: &ContextKey,
    catalog: &Catalog,
    mode: PromptMode,
    previous: &Vec<PreviousText>,
) -> (result: Result<ContextPrompt, OperationError>)
    requires
        catalog.well_formed(),
        states_well_formed(snapshot.contexts@),
        forall|i: int|
            first_at(snapshot.contexts@, key@, i) ==> #[trigger] prompt_fits(
                snapshot.contexts@,
                i,
                *key,
                *catalog,
                mode,
                previous@,
            ),
    ensures
        match result {
            Err(e) => {
                &&& forall|j: int|
                    0 <= j < snapshot.contexts@.len() ==> (#[trigger] snapshot.contexts@[j]).key@ != key@
                &&& e matches OperationError::UnknownContext { key: named } && named@ == key_text(key@)
            },
            Ok(p) => exists|i: int, needs: Needs, d: Delivery| {
                &&& #[trigger] first_at(snapshot.contexts@, key@, i)
                &&& #[trigger] prompt_owed(catalog, &snapshot.contexts@[i].state, mode, previous@, needs)
                &&& #[trigger] prompt_delivery(d, *key, *catalog, needs, snapshot.contexts@[i].state, mode)
                &&& p.text@ == prompt_text(d)
                &&& p.key@ == key_text(key@)
                &&& p.name@ == crate::naming::context_name_spec(
                    &snapshot.contexts@[i].key,
                    &snapshot.contexts@[i].state,
                )
                &&& p.mode == mode
                &&& p.bytes == utf8_len(p.text@)
                &&& p.chars == utf16_len(p.text@)
            },
        },
{
    let at = match find_context(&snapshot.contexts, key) {
        Some(at) => at,
        None => return Err(OperationError::UnknownContext { key: key.to_string() }),
    };
    let record = &snapshot.contexts[at];
    let held = &record.state;
    assert(held.well_formed());
    let name = crate::naming::context_name(&record.key, held);
    let needs = prompt_needs(catalog, held, mode, previous);
    let no_activations: Vec<String> = Vec::new();
    let delivery = Delivery {
        key,
        catalog,
        needs: &needs,
        active: &held.active,
        activated: &no_activations,
        announce_empty_scopes: false,
        session_start: match mode {
            PromptMode::All => true,
            PromptMode::Due => false,
        },
        answer_file_threshold: catalog.settings.answer_file_threshold,
    };
    assert(prompt_owed(catalog, held, mode, previous@, needs));
    assert(prompt_delivery(delivery, *key, *catalog, needs, *held, mode));
    assert(prompt_fits(snapshot.contexts@, at as int, *key, *catalog, mode, previous@));
    assert(utf16_len(render_text(delivery)) <= u64::MAX && utf8_len(render_text(delivery)) <= u64::MAX);
    let text = if needs.is_empty() {
        String::new()
    } else {
        render(&delivery).text
    };
    assert(text@ == prompt_text(delivery));
    let letters = crate::text::chars_of(text.as_str());
    let chars = crate::text::utf16_count_wide(letters.as_slice());
    let bytes = crate::text::utf8_count_wide(letters.as_slice());
    Ok(
        ContextPrompt {
            key: key.to_string(),
            name,
            mode,
            text,
            bytes: bytes as u64,
            chars: chars as u64,
        },
    )
}

} // verus!
