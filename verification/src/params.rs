//! The parameters the MCP tools take, and the reading of a `session_key`.
//!
//! A parameter is text the model wrote; the types here say which words are
//! accepted before any of it reaches an operation.
use vstd::prelude::*;

use crate::catalog::MemoryKind;
use crate::context::{parse_key, ContextKey};
use crate::text::push_str;
use crate::text::string_of;

verus! {

/// Which kind a memory is delivered as.
#[derive(Clone, Copy, Debug, PartialEq, Eq, Structural)]
pub enum RequestedKind {
    /// Delivered in full whenever it becomes due.
    Critical,
    /// Delivered as one index line the model can fetch the body by.
    Knowledge,
}

/// The memory kind a requested kind names.
pub open spec fn kind_of(kind: RequestedKind) -> MemoryKind {
    match kind {
        RequestedKind::Critical => MemoryKind::Critical,
        RequestedKind::Knowledge => MemoryKind::Knowledge,
    }
}

impl RequestedKind {
    /// The memory kind this names.
    pub fn memory_kind(self) -> (kind: MemoryKind)
        ensures
            kind == kind_of(self),
    {
        match self {
            RequestedKind::Critical => MemoryKind::Critical,
            RequestedKind::Knowledge => MemoryKind::Knowledge,
        }
    }
}

/// Who a memory came from: `user` or `assistant` by convention, and any other
/// value is kept as it was written.
#[derive(Clone, Debug)]
pub struct RequestedSource(pub String);

/// Which memories to list.
#[derive(Debug)]
pub struct MemoryIndexParams {
    /// Only memories carrying at least one of these scope ids; every memory
    /// when this is absent.
    pub scopes: Option<Vec<String>>,
    /// Only memories of this kind; both kinds when this is absent.
    pub kind: Option<RequestedKind>,
}

/// Which memory to read, and for whom.
#[derive(Debug)]
pub struct MemoryGetParams {
    /// The memory id, as the index reports it.
    pub id: String,
    /// The calling session's key; given it, reading the body counts as the
    /// memory having been delivered to this session.
    pub session_key: Option<String>,
}

/// One memory to delete.
#[derive(Debug)]
pub struct MemoryDeleteParams {
    /// The calling session's key, recorded as the commit's author.
    pub session_key: String,
    /// The memory id to delete.
    pub id: String,
    /// The commit's title line.
    pub message: String,
    /// The version this write removes; absent deletes whatever the store holds.
    pub base_version: Option<String>,
    /// A branch from `branch_create` to commit to instead of main.
    pub branch: Option<String>,
}

/// One snippet of one memory's body to replace.
#[derive(Debug)]
pub struct MemoryReplaceTextParams {
    /// The calling session's key, recorded as the commit's author.
    pub session_key: String,
    /// The memory id whose body is edited.
    pub id: String,
    /// The exact text to replace, matched literally.
    pub old_string: String,
    /// What to put in its place.
    pub new_string: String,
    /// Replace every occurrence; without it a snippet found more than once is
    /// refused.
    pub replace_all: bool,
    /// The commit's title line.
    pub message: String,
    /// The version this write replaces.
    pub base_version: Option<String>,
    /// A branch from `branch_create` to commit to instead of main.
    pub branch: Option<String>,
}

/// One memory to move to another id.
#[derive(Debug)]
pub struct MemoryRenameParams {
    /// The calling session's key, recorded as the commit's author.
    pub session_key: String,
    /// The memory id as it is now.
    pub from: String,
    /// The memory id it takes, which has to be free.
    pub to: String,
    /// The commit's title line.
    pub message: String,
    /// The version this write moves.
    pub base_version: Option<String>,
    /// A branch from `branch_create` to commit to instead of main.
    pub branch: Option<String>,
}

/// Which session is opening a branch.
#[derive(Debug)]
pub struct BranchCreateParams {
    /// The calling session's key, recorded as the branch's owner.
    pub session_key: String,
}

/// Which branch a call is about.
#[derive(Debug)]
pub struct BranchParams {
    /// The branch name `branch_create` answered with, as `tx/<name>`.
    pub branch: String,
}

/// Which branch to land, and as what commit.
#[derive(Debug)]
pub struct BranchLandParams {
    /// The calling session's key, recorded as the commit's author.
    pub session_key: String,
    /// The branch name, as `tx/<name>`.
    pub branch: String,
    /// The title line of the one commit the whole branch becomes.
    pub message: String,
}

/// Which session is asking.
#[derive(Debug)]
pub struct SessionParams {
    /// The calling session's key, as `machine/session-id`, or
    /// `machine/session-id/agent-id` in a subagent.
    pub session_key: String,
}

/// Which session, and which scopes of it.
#[derive(Debug)]
pub struct SessionScopeParams {
    /// The calling session's key.
    pub session_key: String,
    /// The scope ids to turn on or off, all in one call.
    pub scopes: Vec<String>,
}

/// Which session is asking, and which session it takes its scopes from.
#[derive(Debug)]
pub struct SessionInheritParams {
    /// The calling session's key.
    pub session_key: String,
    /// The session whose scopes this one takes over, as `machine/session-id`.
    pub from_session_key: String,
}

/// A tool parameter refused as invalid, with the sentence that says why.
#[derive(Clone, Debug)]
pub struct InvalidParams {
    pub message: String,
}

/// The refusal of a `session_key` that names no context.
pub open spec fn session_key_refusal(key: Seq<char>) -> Seq<char> {
    "session_key must be `machine/session-id`, or `machine/session-id/agent-id` inside a subagent, not `"@
        + key + "`"@
}

/// The context a `session_key` names.
///
/// MCP tool calls carry no session identity, so the key is a parameter and can
/// be anything the model wrote. A key that names no context is refused as an
/// invalid parameter rather than creating a context of its own, which would
/// collect deliveries no session ever sees.
pub fn parse_session_key(session_key: &str) -> (parsed: Result<ContextKey, InvalidParams>)
    ensures
        match parsed {
            Ok(key) => parse_key(session_key@) == Some(key@),
            Err(refusal) => parse_key(session_key@) is None && refusal.message@
                == session_key_refusal(session_key@),
        },
{
    match ContextKey::parse(session_key) {
        Ok(key) => Ok(key),
        Err(_) => {
            let mut out: Vec<char> = Vec::new();
            push_str(
                &mut out,
                "session_key must be `machine/session-id`, or `machine/session-id/agent-id` inside a subagent, not `",
            );
            push_str(&mut out, session_key);
            push_str(&mut out, "`");
            Err(InvalidParams { message: string_of(&out) })
        },
    }
}

} // verus!
