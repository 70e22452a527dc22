//! The decisions of a write to the store: which version a write replaces and
//! when it is refused for being based on another, what a rename commits, and
//! what a commit does at each turn of its attempt.
//!
//! The store itself, its files and its history, is the program's; what is
//! here takes what it read of them as plain values.
use vstd::prelude::*;

use crate::catalog::{Catalog, ScopeEntry};
use crate::operations::{OperationError, ValidationMessage, WriteMode};
use crate::text::{push_str, string_of};

verus! {

/// What a write with no `base_version` is refused for, at a document that
/// exists.
pub open spec fn missing_base_version_text() -> Seq<char> {
    "base_version is required: a write replaces the version it was read from"@
}

/// What a write is refused for when its `base_version` is not a version at
/// all.
pub open spec fn unreadable_base_version_text() -> Seq<char> {
    "base_version is not a version of this document"@
}

/// Whether `c` is a hexadecimal digit.
pub open spec fn is_hex_digit(c: char) -> bool {
    ('0' <= c && c <= '9') || ('a' <= c && c <= 'f') || ('A' <= c && c <= 'F')
}

/// Whether `text` is written as a version: the hexadecimal digits of an
/// object id, at most forty of them.
pub open spec fn is_version_text(text: Seq<char>) -> bool {
    &&& 0 < text.len() <= 40
    &&& forall|k: int| 0 <= k < text.len() ==> is_hex_digit(#[trigger] text[k])
}

/// Whether `text` is written as a version.
fn is_version(text: &String) -> (is: bool)
    ensures
        is == is_version_text(text@),
{
    let chars = crate::text::chars_of(text.as_str());
    if chars.len() == 0 || chars.len() > 40 {
        return false;
    }
    let mut k: usize = 0;
    while k < chars.len()
        invariant
            k <= chars@.len(),
            chars@ == text@,
            forall|j: int| 0 <= j < k ==> is_hex_digit(#[trigger] chars@[j]),
        decreases chars.len() - k,
    {
        let c = chars[k];
        if !(('0' <= c && c <= '9') || ('a' <= c && c <= 'f') || ('A' <= c && c <= 'F')) {
            return false;
        }
        k += 1;
    }
    true
}

/// A hexadecimal digit in lower case.
pub open spec fn lower_hex(c: char) -> char {
    match c {
        'A' => 'a',
        'B' => 'b',
        'C' => 'c',
        'D' => 'd',
        'E' => 'e',
        'F' => 'f',
        _ => c,
    }
}

/// The object id a version text stands for, written in full: its digits in
/// lower case, and a shorter text padded with zeros to forty digits.
pub open spec fn normal_version(text: Seq<char>) -> Seq<char> {
    Seq::new(40, |k: int| if k < text.len() { lower_hex(text[k]) } else { '0' })
}

/// Whether `base` is written as a version and names the object `current`
/// does: the same digits, whatever their case.
pub open spec fn names_version(base: Seq<char>, current: Seq<char>) -> bool {
    is_version_text(base) && normal_version(base) == normal_version(current)
}

/// Whether two version texts name the same object; texts that are not
/// versions are the same only when written alike.
pub open spec fn same_version_text(a: Seq<char>, b: Seq<char>) -> bool {
    if is_version_text(a) && is_version_text(b) {
        normal_version(a) == normal_version(b)
    } else {
        a == b
    }
}

/// A hexadecimal digit in lower case.
fn lower_hex_char(c: char) -> (l: char)
    ensures
        l == lower_hex(c),
{
    match c {
        'A' => 'a',
        'B' => 'b',
        'C' => 'c',
        'D' => 'd',
        'E' => 'e',
        'F' => 'f',
        _ => c,
    }
}

/// The object id a version text stands for, written in full.
fn normal_version_of(text: &String) -> (out: Vec<char>)
    ensures
        out@ == normal_version(text@),
{
    let chars = crate::text::chars_of(text.as_str());
    let mut out: Vec<char> = Vec::new();
    let mut k: usize = 0;
    while k < 40
        invariant
            k <= 40,
            chars@ == text@,
            out@.len() == k,
            forall|j: int| 0 <= j < k ==> out@[j] == normal_version(text@)[j],
        decreases 40 - k,
    {
        if k < chars.len() {
            out.push(lower_hex_char(chars[k]));
        } else {
            out.push('0');
        }
        k += 1;
    }
    assert(out@ =~= normal_version(text@));
    out
}

/// Whether `base` is written as a version and names the object `current` does.
fn names(base: &String, current: &String) -> (same: bool)
    ensures
        same == names_version(base@, current@),
{
    if !is_version(base) {
        return false;
    }
    let a = normal_version_of(base);
    let b = normal_version_of(current);
    crate::text::same_chars(a.as_slice(), b.as_slice())
}

/// Whether two version texts name the same object.
fn same_text_version(a: &String, b: &String) -> (same: bool)
    ensures
        same == same_version_text(a@, b@),
{
    if is_version(a) && is_version(b) {
        let x = normal_version_of(a);
        let y = normal_version_of(b);
        crate::text::same_chars(x.as_slice(), y.as_slice())
    } else {
        *a == *b
    }
}

/// Whether `i` is the first scope file of the catalog with id `id`.
pub open spec fn first_scope_at(scopes: Seq<ScopeEntry>, id: Seq<char>, i: int) -> bool {
    &&& 0 <= i < scopes.len()
    &&& scopes[i].id@ == id
    &&& forall|j: int| 0 <= j < i ==> (#[trigger] scopes[j]).id@ != id
}

/// Where the first scope file with id `id` is, if any is.
fn find_scope(scopes: &Vec<ScopeEntry>, id: &String) -> (at: Option<usize>)
    ensures
        match at {
            Some(i) => first_scope_at(scopes@, id@, i as int),
            None => forall|j: int| 0 <= j < scopes@.len() ==> (#[trigger] scopes@[j]).id@ != id@,
        },
{
    let mut i: usize = 0;
    while i < scopes.len()
        invariant
            i <= scopes@.len(),
            forall|j: int| 0 <= j < i ==> (#[trigger] scopes@[j]).id@ != id@,
        decreases scopes.len() - i,
    {
        if scopes[i].id == *id {
            return Some(i);
        }
        i += 1;
    }
    None
}

/// The path of a scope's file.
pub open spec fn scope_path(id: Seq<char>) -> Seq<char> {
    "scopes/"@ + id + ".yaml"@
}

/// `the scope `<id>``.
pub open spec fn scope_named(id: Seq<char>) -> Seq<char> {
    "the scope `"@ + id + "`"@
}

/// Whether `e` is the refusal of one problem with the file at `path`.
pub open spec fn one_problem(e: OperationError, path: Seq<char>, message: Seq<char>) -> bool {
    e matches OperationError::Invalid { errors } && errors@.len() == 1 && errors@[0].path@ == path
        && errors@[0].message@ == message
}

/// The refusal of one problem with one file.
fn invalid(path: String, message: String) -> (e: OperationError)
    ensures
        one_problem(e, path@, message@),
{
    let mut errors: Vec<ValidationMessage> = Vec::new();
    errors.push(ValidationMessage { path, message });
    OperationError::Invalid { errors }
}

/// Whether `e` is the conflict over the scope `entry`, naming the version the
/// store holds.
pub open spec fn scope_conflict(e: OperationError, entry: ScopeEntry) -> bool {
    e matches OperationError::Conflict { what, version } && what@ == scope_named(entry.id@)
        && version_view(version) == Some(entry.version@)
}

/// Which version of scope `id` a write in `mode` replaces: `None` for a
/// creation, the current version for an update based on it.
///
/// A creation at a scope that exists is a conflict, and so is an update based
/// on a version that is not the current one (a version names the same object
/// whatever the case of its digits); an update of a scope that does
/// not exist is refused as missing, one without a `base_version` is refused
/// naming the current version, and one whose `base_version` is not a version
/// at all is refused as unreadable.
pub fn scope_write_check(
    catalog: &Catalog,
    id: &String,
    mode: WriteMode,
    base_version: &Option<String>,
) -> (expected: Result<Option<String>, OperationError>)
    requires
        catalog.well_formed(),
    ensures
        match mode {
            WriteMode::Create => match expected {
                Ok(v) => v is None && forall|j: int|
                    0 <= j < catalog.scopes@.len() ==> (#[trigger] catalog.scopes@[j]).id@ != id@,
                Err(e) => exists|i: int|
                    #[trigger] first_scope_at(catalog.scopes@, id@, i) && scope_conflict(e, catalog.scopes@[i]),
            },
            WriteMode::Update => {
                &&& (forall|j: int| 0 <= j < catalog.scopes@.len() ==> (#[trigger] catalog.scopes@[j]).id@ != id@)
                    ==> (expected matches Err(OperationError::NotFound { what }) && what@ == scope_named(id@))
                &&& forall|i: int| #[trigger] first_scope_at(catalog.scopes@, id@, i) ==> {
                    let current = catalog.scopes@[i].version@;
                    match base_version {
                        None => expected matches Err(e) && one_problem(
                            e,
                            scope_path(id@),
                            missing_base_version_text() + "; the current version is "@ + current,
                        ),
                        Some(b) => if names_version(b@, current) {
                            expected matches Ok(Some(v)) && v@ == current
                        } else if is_version_text(b@) {
                            expected matches Err(e) && scope_conflict(e, catalog.scopes@[i])
                        } else {
                            expected matches Err(e) && one_problem(e, scope_path(id@), unreadable_base_version_text())
                        },
                    }
                }
            },
        },
{
    let found = find_scope(&catalog.scopes, id);
    match mode {
        WriteMode::Create => match found {
            Some(i) => Err(conflict_over(&catalog.scopes[i])),
            None => Ok(None),
        },
        WriteMode::Update => match found {
            None => {
                let mut out: Vec<char> = Vec::new();
                push_str(&mut out, "the scope `");
                push_str(&mut out, id.as_str());
                push_str(&mut out, "`");
                Err(OperationError::NotFound { what: string_of(&out) })
            },
            Some(i) => {
                let entry = &catalog.scopes[i];
                match base_version {
                    None => {
                        let mut out: Vec<char> = Vec::new();
                        push_str(&mut out, "base_version is required: a write replaces the version it was read from");
                        push_str(&mut out, "; the current version is ");
                        push_str(&mut out, entry.version.as_str());
                        Err(invalid(path_of_scope(id), string_of(&out)))
                    },
                    Some(b) => {
                        if names(b, &entry.version) {
                            Ok(Some(entry.version.clone()))
                        } else if is_version(b) {
                            Err(conflict_over(entry))
                        } else {
                            Err(invalid(path_of_scope(id), "base_version is not a version of this document".to_string()))
                        }
                    },
                }
            },
        },
    }
}

/// The path of a scope's file.
fn path_of_scope(id: &String) -> (path: String)
    ensures
        path@ == scope_path(id@),
{
    let mut out: Vec<char> = Vec::new();
    push_str(&mut out, "scopes/");
    push_str(&mut out, id.as_str());
    push_str(&mut out, ".yaml");
    string_of(&out)
}

/// The conflict over one scope.
fn conflict_over(entry: &ScopeEntry) -> (e: OperationError)
    ensures
        scope_conflict(e, *entry),
{
    let mut out: Vec<char> = Vec::new();
    push_str(&mut out, "the scope `");
    push_str(&mut out, entry.id.as_str());
    push_str(&mut out, "`");
    OperationError::Conflict { what: string_of(&out), version: Some(entry.version.clone()) }
}

} // verus!

verus! {

/// What a commit of documents does next: refuse it, make it, or try again.
#[derive(Clone, Debug)]
pub enum CommitStep {
    /// The title is not one non-empty line of at most 72 characters.
    BadMessage,
    /// The document at `path` changed since the caller read it; `current` is
    /// the version it has now, `None` when it no longer exists.
    VersionMismatch { path: String, current: Option<String> },
    /// Every document is at the version the write replaces: make the commit
    /// on the head just read.
    Commit,
    /// The head moved under the commit: read the head again and check again.
    Retry,
    /// The head moved under the commit twice in a row; nothing was written.
    Conflict,
}

/// The view of an optional version.
pub open spec fn version_view(v: Option<String>) -> Option<Seq<char>> {
    match v {
        Some(s) => Some(s@),
        None => None,
    }
}

/// Whether the version read at a path differs from the one expected there.
pub open spec fn differs(expected: (String, Option<String>), current: Option<String>) -> bool {
    versions_differ(expected.1, current)
}

/// Whether two optional versions differ: one is absent and the other not,
/// or both are there and name different objects.
pub open spec fn versions_differ(a: Option<String>, b: Option<String>) -> bool {
    match (a, b) {
        (Some(x), Some(y)) => !same_version_text(x@, y@),
        (None, None) => false,
        _ => true,
    }
}

/// Whether `i` is the first path whose version read differs from the one
/// expected.
pub open spec fn first_mismatch_at(expected: Seq<(String, Option<String>)>, current: Seq<Option<String>>, i: int) -> bool {
    &&& 0 <= i < expected.len()
    &&& differs(expected[i], current[i])
    &&& forall|j: int| 0 <= j < i ==> !differs(#[trigger] expected[j], current[j])
}

/// Whether two optional versions are the same.
fn same_version(a: &Option<String>, b: &Option<String>) -> (same: bool)
    ensures
        same == !versions_differ(*a, *b),
{
    match (a, b) {
        (Some(x), Some(y)) => same_text_version(x, y),
        (None, None) => true,
        _ => false,
    }
}

/// One turn of committing documents: `expected` pairs each path with the
/// version the write replaces (`None` where it creates the file), `current`
/// holds the version read at each of those paths in the head just read,
/// `attempt` counts the tries made before this one, and `head_moved` says
/// the commit just tried found the head moved under it.
///
/// A title that is not one usable line refuses the write before anything is
/// read. A moved head is tried once more and is a conflict the second time.
/// Otherwise the first path whose version is not the one expected refuses the
/// write, naming the version it has; and when every version is the expected
/// one, the commit is made.
pub fn commit_step(
    title: &String,
    expected: &Vec<(String, Option<String>)>,
    current: &Vec<Option<String>>,
    attempt: u8,
    head_moved: bool,
) -> (step: CommitStep)
    requires
        current@.len() == expected@.len(),
    ensures
        !crate::naming::valid_title(title@) ==> step is BadMessage,
        crate::naming::valid_title(title@) && head_moved ==> (if attempt == 0 {
            step is Retry
        } else {
            step is Conflict
        }),
        crate::naming::valid_title(title@) && !head_moved ==> match step {
            CommitStep::VersionMismatch { path, current: now } => exists|i: int|
                #[trigger] first_mismatch_at(expected@, current@, i) && path@ == expected@[i].0@
                    && version_view(now) == version_view(current@[i]),
            CommitStep::Commit => forall|j: int|
                0 <= j < expected@.len() ==> !differs(#[trigger] expected@[j], current@[j]),
            _ => false,
        },
{
    if !crate::naming::is_valid_message_title(title.as_str()) {
        return CommitStep::BadMessage;
    }
    if head_moved {
        return if attempt == 0 {
            CommitStep::Retry
        } else {
            CommitStep::Conflict
        };
    }
    let mut i: usize = 0;
    while i < expected.len()
        invariant
            i <= expected@.len(),
            current@.len() == expected@.len(),
            crate::naming::valid_title(title@),
            !head_moved,
            forall|j: int| 0 <= j < i ==> !differs(#[trigger] expected@[j], current@[j]),
        decreases expected.len() - i,
    {
        if !same_version(&expected[i].1, &current[i]) {
            let now = match &current[i] {
                Some(v) => Some(v.clone()),
                None => None,
            };
            assert(first_mismatch_at(expected@, current@, i as int));
            return CommitStep::VersionMismatch { path: expected[i].0.clone(), current: now };
        }
        i += 1;
    }
    CommitStep::Commit
}

} // verus!

verus! {

/// The path of a memory's file.
pub open spec fn memory_path(id: Seq<char>) -> Seq<char> {
    "memories/"@ + id + ".md"@
}

/// `the memory `<id>``.
pub open spec fn memory_named(id: Seq<char>) -> Seq<char> {
    "the memory `"@ + id + "`"@
}

/// What a rename to the id a memory already has is refused for.
pub open spec fn same_rename_target_text() -> Seq<char> {
    "the memory already has this id, so there is nothing to move"@
}

/// What a write with an unusable commit title is refused for.
pub open spec fn bad_message_text() -> Seq<char> {
    "the commit message must be one non-empty line of at most 72 characters"@
}

/// The name of a memory id kept in a session's silo: its last segment.
pub open spec fn silo_name(id: Seq<char>) -> Seq<char> {
    crate::text::split_on(id, '/')[3]
}

/// The text a link from `linker` to `target` is written as: the bare name
/// inside the silo both are kept in, and the full id everywhere else.
pub open spec fn link_text(linker: Seq<char>, target: Seq<char>) -> Seq<char> {
    match crate::registry::silo_of(target) {
        Some(s) => if crate::registry::silo_of(linker) == Some(s) {
            silo_name(target)
        } else {
            target
        },
        None => target,
    }
}

/// Whether `i` is the first entry of `links` for memory `id`.
pub open spec fn first_link_at(links: Seq<(String, Vec<String>)>, id: Seq<char>, i: int) -> bool {
    &&& 0 <= i < links.len()
    &&& links[i].0@ == id
    &&& forall|j: int| 0 <= j < i ==> (#[trigger] links[j]).0@ != id
}

/// The links in the body of memory `id` that resolve to the memory renamed,
/// as the first entry of `links` for it lists them; none when it has none.
pub open spec fn targets_of(links: Seq<(String, Vec<String>)>, id: Seq<char>) -> Seq<Seq<char>> {
    if exists|i: int| first_link_at(links, id, i) {
        crate::catalog::string_views(links[choose|i: int| first_link_at(links, id, i)].1@)
    } else {
        Seq::empty()
    }
}

/// Whether memory `m` links to the memory moved from `from`.
pub open spec fn links_to(m: crate::catalog::MemoryEntry, from: Seq<char>, links: Seq<(String, Vec<String>)>) -> bool {
    m.id@ != from && targets_of(links, m.id@).len() > 0
}

/// Whether the rename is refused for `m`: it links to the memory moved, which
/// moves into a session's silo that `m` is not kept in.
pub open spec fn refused_for(
    m: crate::catalog::MemoryEntry,
    from: Seq<char>,
    to: Seq<char>,
    links: Seq<(String, Vec<String>)>,
) -> bool {
    &&& links_to(m, from, links)
    &&& crate::registry::silo_of(to) is Some
    &&& crate::registry::silo_of(m.id@) != crate::registry::silo_of(to)
}

/// Whether `m` has its links rewritten by the rename.
pub open spec fn rewritten_for(
    m: crate::catalog::MemoryEntry,
    from: Seq<char>,
    to: Seq<char>,
    links: Seq<(String, Vec<String>)>,
) -> bool {
    links_to(m, from, links) && !refused_for(m, from, to, links)
}

/// The silo `id` is kept in, as a refusal names it.
pub open spec fn silo_text(id: Seq<char>) -> Seq<char> {
    match crate::registry::silo_of(id) {
        Some((m, s)) => m + "/"@ + s,
        None => Seq::empty(),
    }
}

/// What the rename is refused for, for one memory that links to the one moved.
pub open spec fn silo_refusal(from: Seq<char>, to: Seq<char>) -> Seq<char> {
    "links to `"@ + from + "`, which the rename would move into session silo `"@ + silo_text(to)
        + "`; only memories in that silo may link to it"@
}

/// What happens to one file in a rename.
#[derive(Clone, Debug)]
pub enum FileChange {
    /// The memory's document arrives here, moved from the file at `from`,
    /// with its declared name the last segment of its new id.
    Moved { from: String },
    /// The file leaves the store.
    Removed,
    /// Every link in the body written as one of `targets` becomes
    /// `replacement`.
    Rewritten { targets: Vec<String>, replacement: String },
}

/// One file of a rename's commit.
#[derive(Clone, Debug)]
pub struct RenameFile {
    pub path: String,
    pub change: FileChange,
}

/// What a rename commits, as one commit: its files, and the version each
/// path must be at for the commit to be made.
#[derive(Clone, Debug)]
pub struct RenamePlan {
    pub files: Vec<RenameFile>,
    pub expected: Vec<(String, Option<String>)>,
}

/// The memories whose links a rename rewrites, in the catalog's order.
pub open spec fn rewrites(
    memories: Seq<crate::catalog::MemoryEntry>,
    from: Seq<char>,
    to: Seq<char>,
    links: Seq<(String, Vec<String>)>,
) -> Seq<crate::catalog::MemoryEntry> {
    memories.filter(|m: crate::catalog::MemoryEntry| rewritten_for(m, from, to, links))
}

/// The memories a rename is refused for, in the catalog's order.
pub open spec fn refusals(
    memories: Seq<crate::catalog::MemoryEntry>,
    from: Seq<char>,
    to: Seq<char>,
    links: Seq<(String, Vec<String>)>,
) -> Seq<crate::catalog::MemoryEntry> {
    memories.filter(|m: crate::catalog::MemoryEntry| refused_for(m, from, to, links))
}

/// Whether `f` is the rewrite of the links of `m` to the memory moved to `to`.
pub open spec fn rewrite_of(f: RenameFile, m: crate::catalog::MemoryEntry, to: Seq<char>, links: Seq<(String, Vec<String>)>) -> bool {
    &&& f.path@ == memory_path(m.id@)
    &&& f.change matches FileChange::Rewritten { targets, replacement }
        && crate::catalog::string_views(targets@) == targets_of(links, m.id@)
        && replacement@ == link_text(m.id@, to)
}

/// The problems a rename is refused for: an unusable commit title, then one
/// per memory that would link into a silo it is not kept in.
pub open spec fn rename_problems(
    memories: Seq<crate::catalog::MemoryEntry>,
    from: Seq<char>,
    to: Seq<char>,
    message: Seq<char>,
    links: Seq<(String, Vec<String>)>,
) -> Seq<(Seq<char>, Seq<char>)> {
    (if crate::naming::valid_title(message) {
        Seq::empty()
    } else {
        seq![(memory_path(to), bad_message_text())]
    }) + refusals(memories, from, to, links).map_values(
        |m: crate::catalog::MemoryEntry| (memory_path(m.id@), silo_refusal(from, to)),
    )
}

/// The plain values of a list of problems.
pub open spec fn problem_views(errors: Seq<ValidationMessage>) -> Seq<(Seq<char>, Seq<char>)> {
    errors.map_values(|e: ValidationMessage| (e.path@, e.message@))
}

} // verus!

verus! {

/// The first entry for one memory is the one `targets_of` reads.
proof fn lemma_first_link_is_chosen(links: Seq<(String, Vec<String>)>, id: Seq<char>, i: int)
    requires
        first_link_at(links, id, i),
    ensures
        targets_of(links, id) == crate::catalog::string_views(links[i].1@),
{
    let c = choose|k: int| first_link_at(links, id, k);
    assert(first_link_at(links, id, c));
    if c < i {
        assert(links[c].0@ != id);
    }
    if i < c {
        assert(links[i].0@ != id);
    }
}

/// Where the first entry of `links` for memory `id` is, if any is.
fn find_links(links: &Vec<(String, Vec<String>)>, id: &String) -> (at: Option<usize>)
    ensures
        match at {
            Some(i) => first_link_at(links@, id@, i as int),
            None => targets_of(links@, id@) == Seq::<Seq<char>>::empty(),
        },
{
    let mut i: usize = 0;
    while i < links.len()
        invariant
            i <= links@.len(),
            forall|j: int| 0 <= j < i ==> (#[trigger] links@[j]).0@ != id@,
        decreases links.len() - i,
    {
        if links[i].0 == *id {
            return Some(i);
        }
        i += 1;
    }
    assert(!exists|k: int| first_link_at(links@, id@, k));
    None
}

/// The links of memory `id` that resolve to the memory renamed.
fn targets_in(links: &Vec<(String, Vec<String>)>, id: &String) -> (targets: Vec<String>)
    ensures
        crate::catalog::string_views(targets@) == targets_of(links@, id@),
{
    match find_links(links, id) {
        Some(i) => {
            proof {
                lemma_first_link_is_chosen(links@, id@, i as int);
            }
            links[i].1.clone()
        },
        None => {
            let none: Vec<String> = Vec::new();
            assert(crate::catalog::string_views(none@) =~= Seq::<Seq<char>>::empty());
            none
        },
    }
}

/// The text a link from `linker` to `target` is written as.
pub fn link_text_for(linker: &String, target: &String) -> (text: String)
    ensures
        text@ == link_text(linker@, target@),
{
    match crate::registry::silo(target) {
        Some((m, s)) => match crate::registry::silo(linker) {
            Some((lm, ls)) => {
                if lm == m && ls == s {
                    let parts = crate::text::split_chars(crate::text::chars_of(target.as_str()).as_slice(), '/');
                    assert(crate::text::views(parts@)[3] == parts@[3]@);
                    string_of(parts[3].as_slice())
                } else {
                    target.clone()
                }
            },
            None => target.clone(),
        },
        None => target.clone(),
    }
}

/// The silo of `to` as a refusal names it.
fn silo_text_of(to: &String) -> (text: Vec<char>)
    ensures
        text@ == silo_text(to@),
{
    let mut out: Vec<char> = Vec::new();
    match crate::registry::silo(to) {
        Some((m, s)) => {
            push_str(&mut out, m.as_str());
            push_str(&mut out, "/");
            push_str(&mut out, s.as_str());
        },
        None => {},
    }
    out
}

/// What the rename is refused for, for one memory that links to the one moved.
fn silo_refusal_text(from: &String, silo: &Vec<char>) -> (text: String)
    ensures
        text@ == "links to `"@ + from@ + "`, which the rename would move into session silo `"@ + silo@
            + "`; only memories in that silo may link to it"@,
{
    let mut out: Vec<char> = Vec::new();
    push_str(&mut out, "links to `");
    push_str(&mut out, from.as_str());
    push_str(&mut out, "`, which the rename would move into session silo `");
    crate::text::push_all(&mut out, silo.as_slice());
    push_str(&mut out, "`; only memories in that silo may link to it");
    string_of(&out)
}

/// Whether two optional silos are the same.
fn same_silo(a: &Option<(String, String)>, b: &Option<(String, String)>) -> (same: bool)
    ensures
        same == ((match a { Some((m, s)) => Some((m@, s@)), None => None::<(Seq<char>, Seq<char>)> })
            == (match b { Some((m, s)) => Some((m@, s@)), None => None::<(Seq<char>, Seq<char>)> })),
{
    match (a, b) {
        (Some((am, as_)), Some((bm, bs))) => *am == *bm && *as_ == *bs,
        (None, None) => true,
        _ => false,
    }
}

} // verus!

verus! {

/// Whether `p` is what a rename of `from` to `to` commits: the document moved
/// to `to`'s file, `from`'s file removed, and one rewrite for every other
/// memory whose links to it are rewritten, in the catalog's order; each file
/// expected at the version it was read at, and `to`'s file not yet there.
pub open spec fn plan_is(
    p: RenamePlan,
    memories: Seq<crate::catalog::MemoryEntry>,
    from: Seq<char>,
    from_version: Seq<char>,
    to: Seq<char>,
    links: Seq<(String, Vec<String>)>,
) -> bool {
    let rw = rewrites(memories, from, to, links);
    &&& p.files@.len() == 2 + rw.len()
    &&& p.expected@.len() == 2 + rw.len()
    &&& p.files@[0].path@ == memory_path(to)
    &&& p.files@[0].change matches FileChange::Moved { from: f } && f@ == memory_path(from)
    &&& p.files@[1].path@ == memory_path(from)
    &&& p.files@[1].change is Removed
    &&& p.expected@[0].0@ == memory_path(to) && p.expected@[0].1 is None
    &&& p.expected@[1].0@ == memory_path(from) && version_view(p.expected@[1].1) == Some(from_version)
    &&& forall|k: int| 0 <= k < rw.len() ==> #[trigger] rewrite_of(p.files@[k + 2], rw[k], to, links)
    &&& forall|k: int| 0 <= k < rw.len() ==> (#[trigger] p.expected@[k + 2]).0@ == memory_path(rw[k].id@)
        && version_view(p.expected@[k + 2].1) == Some(rw[k].version@)
}

/// The file of a memory.
fn path_of_memory(id: &String) -> (path: String)
    ensures
        path@ == memory_path(id@),
{
    crate::naming::DocumentKind::Memory.repository_path(id.as_str())
}

/// Move memory `from` to id `to`, rewriting every link to it in the same
/// commit.
///
/// `base_version` is the version the caller read, the current one when it
/// sent none; `message` is the commit's title; `links` lists, for the
/// memories that link to `from`, the link targets in their bodies that
/// resolve to it. A memory that is not there, a version that is not the
/// current one, and a rename to the id it already has are refused first;
/// then every problem is reported at once: an unusable title, and each
/// memory that would be made to link into a session's silo it is not kept
/// in. Nothing is committed unless there is no problem.
pub fn rename_plan(
    catalog: &Catalog,
    from: &String,
    to: &String,
    base_version: &Option<String>,
    message: &String,
    links: &Vec<(String, Vec<String>)>,
) -> (plan: Result<RenamePlan, OperationError>)
    requires
        catalog.well_formed(),
    ensures
        !catalog.has_memory(from@) ==> (plan matches Err(OperationError::NotFound { what }) && what@ == memory_named(
            from@,
        )),
        catalog.has_memory(from@) ==> {
            let e = catalog.memory_spec(from@)->0;
            let stale = base_version matches Some(b) && !names_version(b@, e.version@);
            &&& (stale && is_version_text(base_version->0@)) ==> (plan matches Err(
                OperationError::Conflict { what, version },
            ) && what@ == memory_named(from@) && version_view(version) == Some(e.version@))
            &&& (stale && !is_version_text(base_version->0@)) ==> (plan matches Err(c) && one_problem(
                c,
                memory_path(from@),
                unreadable_base_version_text(),
            ))
            &&& (!stale && to@ == from@) ==> (plan matches Err(c) && one_problem(
                c,
                memory_path(to@),
                same_rename_target_text(),
            ))
            &&& (!stale && to@ != from@ && rename_problems(catalog.memories@, from@, to@, message@, links@).len()
                > 0) ==> (plan matches Err(OperationError::Invalid { errors }) && problem_views(errors@)
                == rename_problems(catalog.memories@, from@, to@, message@, links@))
            &&& (!stale && to@ != from@ && rename_problems(catalog.memories@, from@, to@, message@, links@).len()
                == 0) ==> (plan matches Ok(p) && plan_is(p, catalog.memories@, from@, e.version@, to@, links@))
        },
{
    let at = match catalog.find(from) {
        Some(at) => at,
        None => {
            let mut out: Vec<char> = Vec::new();
            push_str(&mut out, "the memory `");
            push_str(&mut out, from.as_str());
            push_str(&mut out, "`");
            return Err(OperationError::NotFound { what: string_of(&out) });
        },
    };
    let entry = &catalog.memories[at];
    proof {
        crate::catalog::lemma_unique_position(catalog, at as int, catalog.position_of(from@));
    }
    assert(catalog.memory_spec(from@)->0 == *entry);
    match base_version {
        Some(b) => {
            if !names(b, &entry.version) {
                if is_version(b) {
                    let mut out: Vec<char> = Vec::new();
                    push_str(&mut out, "the memory `");
                    push_str(&mut out, from.as_str());
                    push_str(&mut out, "`");
                    return Err(OperationError::Conflict { what: string_of(&out), version: Some(entry.version.clone()) });
                } else {
                    return Err(invalid(path_of_memory(from), "base_version is not a version of this document".to_string()));
                }
            }
        },
        None => {},
    }
    if *to == *from {
        return Err(invalid(path_of_memory(to), "the memory already has this id, so there is nothing to move".to_string()));
    }
    let from_path = path_of_memory(from);
    let to_path = path_of_memory(to);
    let mut errors: Vec<ValidationMessage> = Vec::new();
    if !crate::naming::is_valid_message_title(message.as_str()) {
        errors.push(ValidationMessage {
            path: to_path.clone(),
            message: "the commit message must be one non-empty line of at most 72 characters".to_string(),
        });
    }
    let ghost head = problem_views(errors@);
    assert(head =~= (if crate::naming::valid_title(message@) {
        Seq::<(Seq<char>, Seq<char>)>::empty()
    } else {
        seq![(memory_path(to@), bad_message_text())]
    }));
    let mut files: Vec<RenameFile> = Vec::new();
    files.push(RenameFile { path: to_path.clone(), change: FileChange::Moved { from: from_path.clone() } });
    files.push(RenameFile { path: from_path.clone(), change: FileChange::Removed });
    let mut expected: Vec<(String, Option<String>)> = Vec::new();
    expected.push((to_path, None));
    expected.push((from_path, Some(entry.version.clone())));
    let to_silo = crate::registry::silo(to);
    let silo_words = silo_text_of(to);
    let refusal = silo_refusal_text(from, &silo_words);
    let mut i: usize = 0;
    while i < catalog.memories.len()
        invariant
            i <= catalog.memories@.len(),
            files@.len() == 2 + rewrites(catalog.memories@.take(i as int), from@, to@, links@).len(),
            expected@.len() == files@.len(),
            files@[0].path@ == memory_path(to@),
            files@[0].change matches FileChange::Moved { from: f } && f@ == memory_path(from@),
            files@[1].path@ == memory_path(from@),
            files@[1].change is Removed,
            expected@[0].0@ == memory_path(to@) && expected@[0].1 is None,
            expected@[1].0@ == memory_path(from@) && version_view(expected@[1].1) == Some(entry.version@),
            forall|k: int|
                0 <= k < rewrites(catalog.memories@.take(i as int), from@, to@, links@).len() ==> #[trigger] rewrite_of(
                    files@[k + 2],
                    rewrites(catalog.memories@.take(i as int), from@, to@, links@)[k],
                    to@,
                    links@,
                ),
            forall|k: int|
                0 <= k < rewrites(catalog.memories@.take(i as int), from@, to@, links@).len() ==> (
                #[trigger] expected@[k + 2]).0@ == memory_path(
                    rewrites(catalog.memories@.take(i as int), from@, to@, links@)[k].id@,
                ) && version_view(expected@[k + 2].1) == Some(
                    rewrites(catalog.memories@.take(i as int), from@, to@, links@)[k].version@,
                ),
            problem_views(errors@) == head + refusals(catalog.memories@.take(i as int), from@, to@, links@).map_values(
                |m: crate::catalog::MemoryEntry| (memory_path(m.id@), silo_refusal(from@, to@)),
            ),
            match to_silo {
                Some((m, s)) => crate::registry::silo_of(to@) == Some((m@, s@)),
                None => crate::registry::silo_of(to@) is None,
            },
            refusal@ == silo_refusal(from@, to@),
        decreases catalog.memories.len() - i,
    {
        let m = &catalog.memories[i];
        let ghost before = catalog.memories@.take(i as int);
        assert(catalog.memories@.take(i + 1) =~= before.push(*m));
        proof {
            crate::text::lemma_filter_push(before, |x: crate::catalog::MemoryEntry| rewritten_for(x, from@, to@, links@), *m);
            crate::text::lemma_filter_push(before, |x: crate::catalog::MemoryEntry| refused_for(x, from@, to@, links@), *m);
        }
        let ghost rw = rewrites(before, from@, to@, links@);
        let ghost files0 = files@;
        let ghost expected0 = expected@;
        let ghost errors0 = problem_views(errors@);
        if m.id != *from {
            let targets = targets_in(links, &m.id);
            if targets.len() > 0 {
                let m_silo = crate::registry::silo(&m.id);
                let refused = match &to_silo {
                    Some(_) => !same_silo(&m_silo, &to_silo),
                    None => false,
                };
                if refused {
                    errors.push(ValidationMessage { path: path_of_memory(&m.id), message: refusal.clone() });
                    assert(problem_views(errors@) =~= errors0.push((memory_path(m.id@), silo_refusal(from@, to@))));
                } else {
                    let replacement = link_text_for(&m.id, to);
                    files.push(RenameFile { path: path_of_memory(&m.id), change: FileChange::Rewritten { targets, replacement } });
                    expected.push((path_of_memory(&m.id), Some(m.version.clone())));
                    assert(rewrite_of(files@[rw.len() as int + 2], *m, to@, links@));
                }
            }
        }
        i += 1;
    }
    assert(catalog.memories@.take(catalog.memories@.len() as int) =~= catalog.memories@);
    if errors.len() > 0 {
        return Err(OperationError::Invalid { errors });
    }
    Ok(RenamePlan { files, expected })
}

} // verus!

verus! {

/// The settings file, at the root of the store.
pub open spec fn settings_path() -> Seq<char> {
    "config.yml"@
}

/// The settings file's path.
fn path_of_settings() -> (path: String)
    ensures
        path@ == settings_path(),
{
    let mut out: Vec<char> = Vec::new();
    push_str(&mut out, "config.yml");
    string_of(&out)
}

/// Which version of the settings file a write of one setting replaces:
/// `current` is the version the store holds, `None` where it has no settings
/// file, and the write replaces it when the caller sent no `base_version`.
///
/// A `base_version` that is not a version at all is refused as unreadable; one
/// that does not name the current version is a conflict, naming the version
/// the store holds. Then a commit title that is not one usable line refuses
/// the write.
pub fn settings_write_check(
    current: &Option<String>,
    base_version: &Option<String>,
    message: &String,
) -> (r: Result<Option<String>, OperationError>)
    ensures
        match base_version {
            Some(b) if !is_version_text(b@) => r matches Err(e) && one_problem(
                e,
                settings_path(),
                unreadable_base_version_text(),
            ),
            Some(b) if !(current matches Some(c) && names_version(b@, c@)) => (r matches Err(
                OperationError::Conflict { what, version },
            ) && what@ == settings_path() && version_view(version) == version_view(*current)),
            _ => if crate::naming::valid_title(message@) {
                r matches Ok(v) && version_view(v) == version_view(*current)
            } else {
                r matches Err(e) && one_problem(e, settings_path(), bad_message_text())
            },
        },
{
    match base_version {
        Some(b) => {
            if !is_version(b) {
                return Err(invalid(path_of_settings(), "base_version is not a version of this document".to_string()));
            }
            let matches = match current {
                Some(c) => names(b, c),
                None => false,
            };
            if !matches {
                let version = match current {
                    Some(c) => Some(c.clone()),
                    None => None,
                };
                return Err(OperationError::Conflict { what: path_of_settings(), version });
            }
        },
        None => {},
    }
    if !crate::naming::is_valid_message_title(message.as_str()) {
        return Err(invalid(
            path_of_settings(),
            "the commit message must be one non-empty line of at most 72 characters".to_string(),
        ));
    }
    match current {
        Some(c) => Ok(Some(c.clone())),
        None => Ok(None),
    }
}

} // verus!
