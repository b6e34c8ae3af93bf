//! Workspace indexing: which snapshot a search reads, what has to be embedded, and
//! what is reported.

use crate::chunk::{Chunk, Scan};
use crate::config::IndexFreshness;
use crate::manifest::{self, CachedFile, Manifest};
use crate::store::SnapshotInfo;
use crate::table::Table;
use crate::workspace::Workspace;
use crate::{order, text};
use vstd::prelude::*;

verus! {

// ---------------------------------------------------------------------------
// Reports
// ---------------------------------------------------------------------------

/// What an indexing run did.
#[derive(Debug)]
pub struct IndexReport {
    pub workspace: Workspace,
    pub files: usize,
    pub chunks: usize,
    pub embedded_chunks: usize,
    pub reused_chunks: usize,
    pub parsed_files: usize,
    pub unchanged_files: usize,
    pub removed_files: usize,
    pub total_nanoseconds: u64,
}

/// The state of a workspace.
#[derive(Debug)]
pub struct Status {
    pub workspace: Workspace,
    pub indexed: bool,
    pub indexing: bool,
    pub chunks: usize,
    pub embedding_dimension: Option<usize>,
    pub compatible: bool,
    pub stale: bool,
    pub watched: bool,
    pub analyzer_running: bool,
    pub csharp_analyzer_running: bool,
    pub typescript_analyzer_running: bool,
    pub python_analyzer_running: bool,
    pub indexed_at_unix_seconds: Option<String>,
}

/// A file in the index.
#[derive(Debug)]
pub struct IndexedFile {
    pub relative_file_path: String,
    pub language: String,
    pub chunks: usize,
}

/// The files in the index of a workspace.
#[derive(Debug)]
pub struct IndexedFilesReport {
    pub workspace: Workspace,
    pub files: Vec<IndexedFile>,
}

/// Whether a workspace is watched.
#[derive(Debug)]
pub struct WatchReport {
    pub workspace: Workspace,
    pub watched: bool,
    pub already_in_requested_state: bool,
}

/// What was done about the index before a search.
#[derive(Debug, Clone, Copy, PartialEq, Eq, Structural)]
pub enum IndexAction {
    Reused,
    Created,
    WaitedForExistingJob,
    /// The previous snapshot was stale (changed files or an embedding configuration
    /// change) and was incrementally refreshed before search.
    RefreshedIncrementally,
}

impl IndexAction {
    /// The wire name of the action.
    pub open spec fn name(self) -> Seq<char> {
        match self {
            IndexAction::Reused => "reused"@,
            IndexAction::Created => "created"@,
            IndexAction::WaitedForExistingJob => "waited_for_existing_job"@,
            IndexAction::RefreshedIncrementally => "refreshed_incrementally"@,
        }
    }

    /// The wire name of the action.
    pub fn as_str(self) -> (r: &'static str)
        ensures
            r@ == self.name(),
    {
        match self {
            IndexAction::Reused => "reused",
            IndexAction::Created => "created",
            IndexAction::WaitedForExistingJob => "waited_for_existing_job",
            IndexAction::RefreshedIncrementally => "refreshed_incrementally",
        }
    }
}

// ---------------------------------------------------------------------------
// Which snapshot a search reads
// ---------------------------------------------------------------------------

/// A state of finding the snapshot that a search reads. `changed` tells that the
/// embedding configuration is not the one that the snapshot was made with.
#[derive(Debug, Clone, Copy, PartialEq, Eq, Structural)]
pub enum IndexState {
    /// Nothing is indexed; the write lock has not been asked for.
    Unindexed,
    /// The write lock was free; another search may have finished meanwhile.
    CreateCheck,
    /// The write lock is held by another job.
    CreateWait,
    /// The other job is over.
    CreateWaitCheck,
    /// The other job left no index.
    CreateCause,
    /// The first index is being made.
    Creating,
    /// There is a snapshot; is a staleness check due?
    Due { changed: bool },
    /// The files are being fingerprinted.
    Fingerprint { changed: bool },
    /// The snapshot is stale; the write lock has not been asked for.
    Stale { changed: bool },
    /// The snapshot is being refreshed.
    Refreshing { changed: bool },
    /// The write lock is held by another job.
    RefreshWait { changed: bool },
    /// The other job is over.
    RefreshCheck { changed: bool },
    /// The snapshot can be read.
    Ready { action: IndexAction, warning: Option<IndexWarning> },
    /// There is no snapshot to read.
    Failed { failure: IndexFailure },
}

/// Why an old snapshot is read.
#[derive(Debug, Clone, Copy, PartialEq, Eq, Structural)]
pub enum IndexWarning {
    /// The refresh failed.
    RefreshUnavailable,
    /// Another job did not end in time.
    TimedOut,
}

/// Why there is no snapshot to read.
#[derive(Debug, Clone, Copy, PartialEq, Eq, Structural)]
pub enum IndexFailure {
    /// The first index could not be made. The cause is kept for searches that wait.
    CreateFailed,
    /// The job that was waited for failed.
    SharedFailure,
    /// The embedding configuration changed, and refreshing is left to the user.
    ConfigurationChanged,
    /// The embedding configuration changed, and the refresh failed.
    RefreshFailed,
    /// The embedding configuration changed, and another job did not end in time.
    RefreshBusy,
}

/// What is to be done in a state.
#[derive(Debug, Clone, Copy, PartialEq, Eq, Structural)]
pub enum IndexCommand {
    /// Take the write lock if it is free.
    TryLock,
    /// Wait for the write lock.
    Lock,
    /// Wait for the write lock for a limited time.
    LockFor,
    /// Look whether there is a snapshot.
    LookForSnapshot,
    /// Look for the cause that a failed first index left.
    LookForCause,
    /// Forget any such cause and index.
    CreateIndex,
    /// Index.
    RefreshIndex,
    /// Look whether the staleness check is due, and if it is, note the time.
    CheckDue,
    /// Fingerprint the files and compare with the manifest.
    CompareFingerprint,
    /// Compare the snapshot and the manifest once more.
    CompareAgain,
    /// Read the snapshot.
    Read,
    /// Give up.
    Fail,
}

/// What came of a command.
#[derive(Debug, Clone, Copy, PartialEq, Eq, Structural)]
pub enum IndexEvent {
    /// The lock was taken, there is a snapshot, there is a cause, indexing worked, the
    /// check is due, or the snapshot is stale.
    Yes,
    /// It is not so.
    No,
}

/// The first state of a search. `identity_changed` tells, where there is a snapshot,
/// whether it was made with another embedding configuration.
pub open spec fn first_state(
    snapshot: Option<bool>,
    freshness: IndexFreshness,
) -> IndexState {
    match snapshot {
        None => IndexState::Unindexed,
        Some(changed) => match freshness {
            IndexFreshness::OnSearch => IndexState::Due { changed },
            IndexFreshness::Manual | IndexFreshness::Watch => if changed {
                IndexState::Failed { failure: IndexFailure::ConfigurationChanged }
            } else {
                IndexState::Ready { action: IndexAction::Reused, warning: None }
            },
        },
    }
}

/// What is to be done in a state.
pub open spec fn command_of(state: IndexState) -> IndexCommand {
    match state {
        IndexState::Unindexed => IndexCommand::TryLock,
        IndexState::CreateCheck => IndexCommand::LookForSnapshot,
        IndexState::CreateWait => IndexCommand::Lock,
        IndexState::CreateWaitCheck => IndexCommand::LookForSnapshot,
        IndexState::CreateCause => IndexCommand::LookForCause,
        IndexState::Creating => IndexCommand::CreateIndex,
        IndexState::Due { .. } => IndexCommand::CheckDue,
        IndexState::Fingerprint { .. } => IndexCommand::CompareFingerprint,
        IndexState::Stale { .. } => IndexCommand::TryLock,
        IndexState::Refreshing { .. } => IndexCommand::RefreshIndex,
        IndexState::RefreshWait { .. } => IndexCommand::LockFor,
        IndexState::RefreshCheck { .. } => IndexCommand::CompareAgain,
        IndexState::Ready { .. } => IndexCommand::Read,
        IndexState::Failed { .. } => IndexCommand::Fail,
    }
}

/// A snapshot can be reused only if the embedding configuration has not changed.
pub open spec fn reuse_or_fail(
    changed: bool,
    warning: IndexWarning,
    failure: IndexFailure,
) -> IndexState {
    if changed {
        IndexState::Failed { failure }
    } else {
        IndexState::Ready { action: IndexAction::Reused, warning: Some(warning) }
    }
}

/// The state behind a command's outcome.
pub open spec fn next_state(state: IndexState, event: IndexEvent) -> IndexState {
    let yes = event == IndexEvent::Yes;
    match state {
        IndexState::Unindexed => if yes {
            IndexState::CreateCheck
        } else {
            IndexState::CreateWait
        },
        IndexState::CreateCheck => if yes {
            IndexState::Ready { action: IndexAction::WaitedForExistingJob, warning: None }
        } else {
            IndexState::Creating
        },
        IndexState::CreateWait => IndexState::CreateWaitCheck,
        IndexState::CreateWaitCheck => if yes {
            IndexState::Ready { action: IndexAction::WaitedForExistingJob, warning: None }
        } else {
            IndexState::CreateCause
        },
        IndexState::CreateCause => if yes {
            IndexState::Failed { failure: IndexFailure::SharedFailure }
        } else {
            IndexState::Creating
        },
        IndexState::Creating => if yes {
            IndexState::Ready { action: IndexAction::Created, warning: None }
        } else {
            IndexState::Failed { failure: IndexFailure::CreateFailed }
        },
        IndexState::Due { changed } => if yes {
            IndexState::Fingerprint { changed }
        } else if changed {
            IndexState::Stale { changed }
        } else {
            IndexState::Ready { action: IndexAction::Reused, warning: None }
        },
        IndexState::Fingerprint { changed } => if yes || changed {
            IndexState::Stale { changed }
        } else {
            IndexState::Ready { action: IndexAction::Reused, warning: None }
        },
        IndexState::Stale { changed } => if yes {
            IndexState::Refreshing { changed }
        } else {
            IndexState::RefreshWait { changed }
        },
        IndexState::Refreshing { changed } => if yes {
            IndexState::Ready { action: IndexAction::RefreshedIncrementally, warning: None }
        } else {
            reuse_or_fail(changed, IndexWarning::RefreshUnavailable, IndexFailure::RefreshFailed)
        },
        IndexState::RefreshWait { changed } => if yes {
            IndexState::RefreshCheck { changed }
        } else {
            reuse_or_fail(changed, IndexWarning::TimedOut, IndexFailure::RefreshBusy)
        },
        IndexState::RefreshCheck { changed } => if yes {
            IndexState::Refreshing { changed }
        } else {
            IndexState::Ready { action: IndexAction::WaitedForExistingJob, warning: None }
        },
        IndexState::Ready { .. } => state,
        IndexState::Failed { .. } => state,
    }
}

/// The first state of a search. `snapshot` tells, where there is one, whether it was
/// made with another embedding configuration.
pub fn start_index(snapshot: Option<bool>, freshness: IndexFreshness) -> (r: IndexState)
    ensures
        r == first_state(snapshot, freshness),
{
    match snapshot {
        None => IndexState::Unindexed,
        Some(changed) => match freshness {
            IndexFreshness::OnSearch => IndexState::Due { changed },
            IndexFreshness::Manual | IndexFreshness::Watch => if changed {
                IndexState::Failed { failure: IndexFailure::ConfigurationChanged }
            } else {
                IndexState::Ready { action: IndexAction::Reused, warning: None }
            },
        },
    }
}

/// What is to be done in a state.
pub fn index_command(state: IndexState) -> (r: IndexCommand)
    ensures
        r == command_of(state),
{
    match state {
        IndexState::Unindexed => IndexCommand::TryLock,
        IndexState::CreateCheck => IndexCommand::LookForSnapshot,
        IndexState::CreateWait => IndexCommand::Lock,
        IndexState::CreateWaitCheck => IndexCommand::LookForSnapshot,
        IndexState::CreateCause => IndexCommand::LookForCause,
        IndexState::Creating => IndexCommand::CreateIndex,
        IndexState::Due { .. } => IndexCommand::CheckDue,
        IndexState::Fingerprint { .. } => IndexCommand::CompareFingerprint,
        IndexState::Stale { .. } => IndexCommand::TryLock,
        IndexState::Refreshing { .. } => IndexCommand::RefreshIndex,
        IndexState::RefreshWait { .. } => IndexCommand::LockFor,
        IndexState::RefreshCheck { .. } => IndexCommand::CompareAgain,
        IndexState::Ready { .. } => IndexCommand::Read,
        IndexState::Failed { .. } => IndexCommand::Fail,
    }
}

fn reuse(changed: bool, warning: IndexWarning, failure: IndexFailure) -> (r: IndexState)
    ensures
        r == reuse_or_fail(changed, warning, failure),
{
    if changed {
        IndexState::Failed { failure }
    } else {
        IndexState::Ready { action: IndexAction::Reused, warning: Some(warning) }
    }
}

/// The state behind a command's outcome.
pub fn advance_index(state: IndexState, event: IndexEvent) -> (r: IndexState)
    ensures
        r == next_state(state, event),
{
    let yes = event == IndexEvent::Yes;
    match state {
        IndexState::Unindexed => if yes {
            IndexState::CreateCheck
        } else {
            IndexState::CreateWait
        },
        IndexState::CreateCheck => if yes {
            IndexState::Ready { action: IndexAction::WaitedForExistingJob, warning: None }
        } else {
            IndexState::Creating
        },
        IndexState::CreateWait => IndexState::CreateWaitCheck,
        IndexState::CreateWaitCheck => if yes {
            IndexState::Ready { action: IndexAction::WaitedForExistingJob, warning: None }
        } else {
            IndexState::CreateCause
        },
        IndexState::CreateCause => if yes {
            IndexState::Failed { failure: IndexFailure::SharedFailure }
        } else {
            IndexState::Creating
        },
        IndexState::Creating => if yes {
            IndexState::Ready { action: IndexAction::Created, warning: None }
        } else {
            IndexState::Failed { failure: IndexFailure::CreateFailed }
        },
        IndexState::Due { changed } => if yes {
            IndexState::Fingerprint { changed }
        } else if changed {
            IndexState::Stale { changed }
        } else {
            IndexState::Ready { action: IndexAction::Reused, warning: None }
        },
        IndexState::Fingerprint { changed } => if yes || changed {
            IndexState::Stale { changed }
        } else {
            IndexState::Ready { action: IndexAction::Reused, warning: None }
        },
        IndexState::Stale { changed } => if yes {
            IndexState::Refreshing { changed }
        } else {
            IndexState::RefreshWait { changed }
        },
        IndexState::Refreshing { changed } => if yes {
            IndexState::Ready { action: IndexAction::RefreshedIncrementally, warning: None }
        } else {
            reuse(changed, IndexWarning::RefreshUnavailable, IndexFailure::RefreshFailed)
        },
        IndexState::RefreshWait { changed } => if yes {
            IndexState::RefreshCheck { changed }
        } else {
            reuse(changed, IndexWarning::TimedOut, IndexFailure::RefreshBusy)
        },
        IndexState::RefreshCheck { changed } => if yes {
            IndexState::Refreshing { changed }
        } else {
            IndexState::Ready { action: IndexAction::WaitedForExistingJob, warning: None }
        },
        IndexState::Ready { .. } => state,
        IndexState::Failed { .. } => state,
    }
}

/// The states that a search goes through.
pub open spec fn states_after(start: IndexState, events: Seq<IndexEvent>) -> IndexState
    decreases events.len(),
{
    if events.len() == 0 {
        start
    } else {
        next_state(states_after(start, events.drop_last()), events.last())
    }
}

/// A search has found its snapshot, or that there is none.
pub open spec fn is_over(state: IndexState) -> bool {
    state is Ready || state is Failed
}

/// How many commands are left at most.
pub open spec fn steps_left(state: IndexState) -> nat {
    match state {
        IndexState::Ready { .. } | IndexState::Failed { .. } => 0,
        IndexState::Creating | IndexState::Refreshing { .. } => 1,
        IndexState::CreateCheck | IndexState::CreateCause | IndexState::RefreshCheck { .. } => 2,
        IndexState::CreateWaitCheck | IndexState::RefreshWait { .. } => 3,
        IndexState::CreateWait | IndexState::Stale { .. } => 4,
        IndexState::Unindexed | IndexState::Fingerprint { .. } => 5,
        IndexState::Due { .. } => 6,
    }
}

/// Every command brings the search nearer to its end.
pub proof fn law_finding_a_snapshot_ends(state: IndexState, event: IndexEvent)
    ensures
        is_over(state) ==> next_state(state, event) == state,
        !is_over(state) ==> steps_left(next_state(state, event)) < steps_left(state),
{
}

/// The write lock is held in a state.
pub open spec fn holds_lock(state: IndexState) -> bool {
    match state {
        IndexState::CreateCheck => true,
        IndexState::CreateWaitCheck => true,
        IndexState::CreateCause => true,
        IndexState::Creating => true,
        IndexState::Refreshing { .. } => true,
        IndexState::RefreshCheck { .. } => true,
        _ => false,
    }
}

/// Indexing is started only while the write lock is held, and the lock is held only
/// behind a command that took it.
pub proof fn law_indexing_holds_the_lock(state: IndexState, event: IndexEvent)
    ensures
        command_of(state) == IndexCommand::CreateIndex || command_of(state)
            == IndexCommand::RefreshIndex ==> holds_lock(state),
        !holds_lock(state) && holds_lock(next_state(state, event)) ==> {
            ||| command_of(state) == IndexCommand::TryLock && event == IndexEvent::Yes
            ||| command_of(state) == IndexCommand::Lock
            ||| command_of(state) == IndexCommand::LockFor && event == IndexEvent::Yes
        },
{
}

/// Concurrent first searches share one job: a search makes the first index only where it
/// holds the lock, looked for a snapshot and found none, and one that finds the snapshot
/// of another job reads it.
pub proof fn law_first_searches_share_one_job(state: IndexState, event: IndexEvent)
    ensures
        next_state(state, event) == IndexState::Creating && state != IndexState::Creating ==> {
            ||| state == IndexState::CreateCheck && event == IndexEvent::No
            ||| state == IndexState::CreateCause && event == IndexEvent::No
        },
        next_state(state, event) == IndexState::CreateCause && state != IndexState::CreateCause
            ==> state == IndexState::CreateWaitCheck && event == IndexEvent::No,
        command_of(state) == IndexCommand::LookForSnapshot && event == IndexEvent::Yes
            ==> next_state(state, event) == (IndexState::Ready {
            action: IndexAction::WaitedForExistingJob,
            warning: None,
        }),
{
}

/// What is known of a search over a snapshot of another embedding configuration.
spec fn keeps_changed(state: IndexState) -> bool {
    match state {
        IndexState::Due { changed } => changed,
        IndexState::Fingerprint { changed } => changed,
        IndexState::Stale { changed } => changed,
        IndexState::Refreshing { changed } => changed,
        IndexState::RefreshWait { changed } => changed,
        IndexState::RefreshCheck { changed } => changed,
        IndexState::Ready { action, .. } => action != IndexAction::Reused,
        IndexState::Failed { .. } => true,
        _ => false,
    }
}

proof fn lemma_changed_stays(state: IndexState, events: Seq<IndexEvent>)
    requires
        keeps_changed(state),
    ensures
        keeps_changed(states_after(state, events)),
    decreases events.len(),
{
    if events.len() > 0 {
        lemma_changed_stays(state, events.drop_last());
    }
}

/// A snapshot that was made with another embedding configuration is never reused.
pub proof fn law_an_incompatible_snapshot_is_never_reused(
    freshness: IndexFreshness,
    events: Seq<IndexEvent>,
)
    ensures
        match states_after(first_state(Some(true), freshness), events) {
            IndexState::Ready { action, .. } => action != IndexAction::Reused,
            _ => true,
        },
{
    lemma_changed_stays(first_state(Some(true), freshness), events);
}

/// What is known of a search over a compatible snapshot.
spec fn keeps_unchanged(state: IndexState) -> bool {
    match state {
        IndexState::Due { changed } => !changed,
        IndexState::Fingerprint { changed } => !changed,
        IndexState::Stale { changed } => !changed,
        IndexState::Refreshing { changed } => !changed,
        IndexState::RefreshWait { changed } => !changed,
        IndexState::RefreshCheck { changed } => !changed,
        IndexState::Ready { .. } => true,
        _ => false,
    }
}

proof fn lemma_unchanged_stays(state: IndexState, events: Seq<IndexEvent>)
    requires
        keeps_unchanged(state),
    ensures
        keeps_unchanged(states_after(state, events)),
    decreases events.len(),
{
    if events.len() > 0 {
        lemma_unchanged_stays(state, events.drop_last());
    }
}

/// A compatible snapshot never fails a search: where it cannot be refreshed it is read
/// as it is.
pub proof fn law_a_compatible_snapshot_never_fails(
    freshness: IndexFreshness,
    events: Seq<IndexEvent>,
)
    ensures
        !(states_after(first_state(Some(false), freshness), events) is Failed),
{
    lemma_unchanged_stays(first_state(Some(false), freshness), events);
}

/// The text of a failure, with the cause where there is one.
pub open spec fn failure_text(failure: IndexFailure, cause: Seq<char>) -> Seq<char> {
    match failure {
        IndexFailure::CreateFailed => cause,
        IndexFailure::SharedFailure => "indexing failed while waiting for the in-progress index job: "@
            + cause,
        IndexFailure::ConfigurationChanged => "embedding configuration changed; reindex workspace"@,
        IndexFailure::RefreshFailed => "embedding configuration changed; automatic reindex failed and the previous incompatible snapshot cannot be searched: "@
            + cause,
        IndexFailure::RefreshBusy => "embedding configuration changed and no compatible index is available; an index refresh is already in progress"@,
    }
}

/// The text of a failure, with the cause where there is one.
pub fn failure_message(failure: IndexFailure, cause: &str) -> (r: String)
    ensures
        r@ == failure_text(failure, cause@),
{
    match failure {
        IndexFailure::CreateFailed => cause.to_owned(),
        IndexFailure::SharedFailure => text::concat2(
            "indexing failed while waiting for the in-progress index job: ",
            cause,
        ),
        IndexFailure::ConfigurationChanged => {
            "embedding configuration changed; reindex workspace".to_owned()
        },
        IndexFailure::RefreshFailed => text::concat2(
            "embedding configuration changed; automatic reindex failed and the previous incompatible snapshot cannot be searched: ",
            cause,
        ),
        IndexFailure::RefreshBusy => {
            "embedding configuration changed and no compatible index is available; an index refresh is already in progress".to_owned()
        },
    }
}

/// The text of a warning, with the cause and the seconds waited.
pub open spec fn warning_text(warning: IndexWarning, cause: Seq<char>, waited: u64) -> Seq<char> {
    match warning {
        IndexWarning::RefreshUnavailable => "index refresh unavailable; reusing previous snapshot: "@
            + cause,
        IndexWarning::TimedOut => "timed out after "@ + text::decimal(waited as nat)
            + "s waiting for an in-progress index refresh; reusing previous snapshot"@,
    }
}

/// The text of a warning, with the cause and the seconds waited.
pub fn warning_message(warning: IndexWarning, cause: &str, waited: u64) -> (r: String)
    ensures
        r@ == warning_text(warning, cause@, waited),
{
    match warning {
        IndexWarning::RefreshUnavailable => text::concat2(
            "index refresh unavailable; reusing previous snapshot: ",
            cause,
        ),
        IndexWarning::TimedOut => text::concat3(
            "timed out after ",
            text::decimal_text(waited).as_str(),
            "s waiting for an in-progress index refresh; reusing previous snapshot",
        ),
    }
}

/// Report whether a staleness check is due: none was made, or `elapsed` nanoseconds ago.
pub fn check_is_due(elapsed: Option<u128>, interval_seconds: u64) -> (r: bool)
    ensures
        r == match elapsed {
            None => true,
            Some(nanoseconds) => nanoseconds >= interval_seconds * 1_000_000_000,
        },
{
    match elapsed {
        None => true,
        Some(nanoseconds) => nanoseconds >= interval_seconds as u128 * 1_000_000_000u128,
    }
}

/// The files are not those that were indexed.
pub open spec fn files_changed(stored: Seq<char>, current: Seq<char>) -> bool {
    stored.len() == 0 || stored != current
}

/// Report whether the files are not those that were indexed, by the fingerprint in the
/// manifest and the present one.
pub fn is_stale(stored: &str, current: &str) -> (r: bool)
    ensures
        r == files_changed(stored@, current@),
{
    stored.is_empty() || !text::str_eq(stored, current)
}

/// Report whether a snapshot is still stale behind another job: by its embedding
/// identity, or by the fingerprint of the files where it was taken.
pub fn is_still_stale(
    snapshot_identity: Option<&str>,
    identity: &str,
    stored: &str,
    current: Option<&str>,
) -> (r: bool)
    ensures
        r == {
            ||| snapshot_identity is Some && snapshot_identity->0@ != identity@
            ||| current is Some && stored@ != current->0@
        },
{
    if let Some(found) = snapshot_identity {
        if !text::str_eq(found, identity) {
            return true;
        }
    }
    match current {
        Some(fingerprint) => !text::str_eq(stored, fingerprint),
        None => false,
    }
}

// ---------------------------------------------------------------------------
// What has to be embedded
// ---------------------------------------------------------------------------

/// The chunk at `i` has a vector in the cache.
pub open spec fn is_cached(chunks: Seq<Chunk>, cached: Seq<Seq<char>>, i: int) -> bool {
    cached.contains(chunks[i].content_hash@)
}

/// The chunk at `i` is the first with its content, and has no vector in the cache.
pub open spec fn is_new(chunks: Seq<Chunk>, cached: Seq<Seq<char>>, i: int) -> bool {
    &&& !is_cached(chunks, cached, i)
    &&& forall|j: int|
        0 <= j < i ==> (#[trigger] chunks[j]).content_hash@ != chunks[i].content_hash@
}

/// How many of the first `n` chunks have a vector in the cache.
pub open spec fn cached_count(chunks: Seq<Chunk>, cached: Seq<Seq<char>>, n: nat) -> nat
    decreases n,
{
    if n == 0 {
        0
    } else if is_cached(chunks, cached, n - 1) {
        cached_count(chunks, cached, (n - 1) as nat) + 1
    } else {
        cached_count(chunks, cached, (n - 1) as nat)
    }
}

/// The new chunks among the first `n`, in order.
pub open spec fn new_chunks(chunks: Seq<Chunk>, cached: Seq<Seq<char>>, n: nat) -> Seq<int>
    decreases n,
{
    if n == 0 {
        seq![]
    } else {
        let before = new_chunks(chunks, cached, (n - 1) as nat);
        if is_new(chunks, cached, n - 1) {
            before.push(n - 1)
        } else {
            before
        }
    }
}

/// What an indexing run has to embed.
///
/// The vectors stand in slots: those of the cache first, then those of the new chunks,
/// in order.
#[derive(Debug)]
pub struct EmbeddingPlan {
    /// How many chunks have a vector in the cache.
    pub reused_chunks: usize,
    /// The chunks to embed: each content once.
    pub missing: Vec<usize>,
    /// The slot of each chunk's vector.
    pub slots: Vec<usize>,
}

/// The content whose vector stands in a slot.
pub open spec fn slot_content(
    chunks: Seq<Chunk>,
    cached: Seq<Seq<char>>,
    missing: Seq<usize>,
    slot: int,
) -> Seq<char> {
    if slot < cached.len() {
        cached[slot]
    } else {
        chunks[missing[slot - cached.len()] as int].content_hash@
    }
}

/// The slot holds the vector of a content. Of equal contents in the cache the last
/// counts.
pub open spec fn slot_fits(
    chunks: Seq<Chunk>,
    cached: Seq<Seq<char>>,
    missing: Seq<usize>,
    slot: int,
    content: Seq<char>,
) -> bool {
    &&& 0 <= slot < cached.len() + missing.len()
    &&& slot_content(chunks, cached, missing, slot) == content
    &&& slot < cached.len() <==> cached.contains(content)
    &&& forall|k: int| slot < k < cached.len() ==> #[trigger] cached[k] != content
}

/// The plan for the first `n` chunks.
pub open spec fn plans(
    plan: EmbeddingPlan,
    chunks: Seq<Chunk>,
    cached: Seq<Seq<char>>,
    n: nat,
) -> bool {
    &&& plan.reused_chunks == cached_count(chunks, cached, n)
    &&& plan.missing@.map_values(|i: usize| i as int) == new_chunks(chunks, cached, n)
    &&& plan.slots@.len() == n
    &&& forall|i: int|
        0 <= i < n ==> slot_fits(
            chunks,
            cached,
            plan.missing@,
            #[trigger] plan.slots@[i] as int,
            chunks[i].content_hash@,
        )
}

/// The slots of the contents seen so far.
spec fn table_fits(
    table: Map<Seq<char>, usize>,
    chunks: Seq<Chunk>,
    cached: Seq<Seq<char>>,
    missing: Seq<usize>,
    n: nat,
) -> bool {
    &&& forall|content: Seq<char>| #[trigger]
        table.contains_key(content) <==> cached.contains(content) || seen_content(
            chunks,
            content,
            n,
        )
    &&& forall|content: Seq<char>| #[trigger]
        table.contains_key(content) ==> slot_fits(
            chunks,
            cached,
            missing,
            table[content] as int,
            content,
        )
}

/// One of the first `n` chunks has this content.
spec fn seen_content(chunks: Seq<Chunk>, content: Seq<char>, n: nat) -> bool {
    exists|j: int| 0 <= j < n && (#[trigger] chunks[j]).content_hash@ == content
}

fn cached_slots(cached: &[String]) -> (r: Table<usize>)
    ensures
        forall|content: Seq<char>| #[trigger]
            r@.contains_key(content) <==> text::views(cached@).contains(content),
        forall|content: Seq<char>| #[trigger]
            r@.contains_key(content) ==> {
                &&& r@[content] < cached@.len()
                &&& cached@[r@[content] as int]@ == content
                &&& forall|k: int|
                    r@[content] < k < cached@.len() ==> (#[trigger] cached@[k])@ != content
            },
{
    let ghost all = text::views(cached@);
    let mut table: Table<usize> = Table::new();
    let mut i: usize = 0;
    while i < cached.len()
        invariant
            i <= cached@.len(),
            all == text::views(cached@),
            forall|content: Seq<char>| #[trigger]
                table@.contains_key(content) <==> all.take(i as int).contains(content),
            forall|content: Seq<char>| #[trigger]
                table@.contains_key(content) ==> {
                    &&& table@[content] < i
                    &&& cached@[table@[content] as int]@ == content
                    &&& forall|k: int|
                        table@[content] < k < i ==> (#[trigger] cached@[k])@ != content
                },
        decreases cached@.len() - i,
    {
        let ghost before = table@;
        table.insert(cached[i].clone(), i);
        proof {
            let (a, b) = (all.take(i as int), all.take(i + 1));
            assert forall|content: Seq<char>| #[trigger]
                table@.contains_key(content) <==> b.contains(content) by {
                if b.contains(content) {
                    let k = choose|k: int| 0 <= k < b.len() && b[k] == content;
                    if k < i {
                        assert(a[k] == content);
                        assert(a.contains(content));
                        assert(before.contains_key(content));
                    }
                }
                if before.contains_key(content) {
                    assert(a.contains(content));
                    let k = choose|k: int| 0 <= k < a.len() && a[k] == content;
                    assert(b[k] == content);
                }
                if content == cached@[i as int]@ {
                    assert(b[i as int] == content);
                }
            }
            assert forall|content: Seq<char>| #[trigger] table@.contains_key(content) implies {
                &&& table@[content] < i + 1
                &&& cached@[table@[content] as int]@ == content
                &&& forall|k: int|
                    table@[content] < k < i + 1 ==> (#[trigger] cached@[k])@ != content
            } by {
                if content != cached@[i as int]@ {
                    assert(before.contains_key(content));
                }
            }
        }
        i = i + 1;
    }
    assert(all.take(all.len() as int) =~= all);
    table
}

proof fn lemma_slot_grows(
    chunks: Seq<Chunk>,
    cached: Seq<Seq<char>>,
    missing: Seq<usize>,
    added: usize,
    slot: int,
    content: Seq<char>,
)
    requires
        slot_fits(chunks, cached, missing, slot, content),
    ensures
        slot_fits(chunks, cached, missing.push(added), slot, content),
{
}

/// Plan what an indexing run has to embed, given the contents of the cached vectors.
pub fn plan_embedding(chunks: &[Chunk], cached: &[String]) -> (r: EmbeddingPlan)
    requires
        chunks@.len() + cached@.len() <= usize::MAX,
    ensures
        plans(r, chunks@, text::views(cached@), chunks@.len()),
{
    let ghost known = text::views(cached@);
    let mut table = cached_slots(cached);
    let mut plan = EmbeddingPlan { reused_chunks: 0, missing: Vec::new(), slots: Vec::new() };
    let mut i: usize = 0;
    proof {
        assert(plan.missing@.map_values(|i: usize| i as int) =~= seq![]);
        assert forall|content: Seq<char>| #[trigger] table@.contains_key(content) implies slot_fits(
            chunks@,
            known,
            plan.missing@,
            table@[content] as int,
            content,
        ) by {
            assert(known[table@[content] as int] == cached@[table@[content] as int]@);
            assert forall|k: int| table@[content] < k < known.len() implies #[trigger] known[k]
                != content by {
                assert(known[k] == cached@[k]@);
            }
        }
    }
    while i < chunks.len()
        invariant
            i <= chunks@.len(),
            known == text::views(cached@),
            chunks@.len() + cached@.len() <= usize::MAX,
            plan.missing@.len() <= i,
            plan.reused_chunks <= i,
            plans(plan, chunks@, known, i as nat),
            table_fits(table@, chunks@, known, plan.missing@, i as nat),
        decreases chunks@.len() - i,
    {
        let content = chunks[i].content_hash.as_str();
        let ghost word = content@;
        let ghost before = plan;
        let ghost old_table = table@;
        match table.get(content) {
            Some(slot) => {
                let slot: usize = *slot;
                if slot < cached.len() {
                    plan.reused_chunks = plan.reused_chunks + 1;
                }
                plan.slots.push(slot);
                proof {
                    assert(slot_fits(chunks@, known, plan.missing@, slot as int, word));
                    assert(is_cached(chunks@, known, i as int) <==> slot < known.len());
                    if !known.contains(word) {
                        assert(seen_content(chunks@, word, i as nat));
                        let j = choose|j: int|
                            0 <= j < i && (#[trigger] chunks@[j]).content_hash@ == word;
                        assert(!is_new(chunks@, known, i as int));
                    }
                }
            },
            None => {
                let slot: usize = cached.len() + plan.missing.len();
                plan.missing.push(i);
                plan.slots.push(slot);
                table.insert(chunks[i].content_hash.clone(), slot);
                proof {
                    let plain = |i: usize| i as int;
                    assert(plan.missing@.map_values(plain) =~= before.missing@.map_values(
                        plain,
                    ).push(i as int));
                    assert(!known.contains(word));
                    assert(!seen_content(chunks@, word, i as nat));
                    assert(is_new(chunks@, known, i as int));
                    assert(slot_content(chunks@, known, plan.missing@, slot as int) == word);
                    assert(slot_fits(chunks@, known, plan.missing@, slot as int, word));
                }
            },
        }
        proof {
            assert forall|content: Seq<char>| #[trigger]
                table@.contains_key(content) <==> known.contains(content) || seen_content(
                chunks@,
                content,
                (i + 1) as nat,
            ) by {
                if seen_content(chunks@, content, (i + 1) as nat) {
                    let j = choose|j: int|
                        0 <= j < i + 1 && (#[trigger] chunks@[j]).content_hash@ == content;
                    if j < i {
                        assert(seen_content(chunks@, content, i as nat));
                        assert(old_table.contains_key(content));
                    }
                }
                if old_table.contains_key(content) && !known.contains(content) {
                    assert(seen_content(chunks@, content, i as nat));
                    let j = choose|j: int|
                        0 <= j < i && (#[trigger] chunks@[j]).content_hash@ == content;
                    assert(chunks@[j].content_hash@ == content);
                }
                if content == word {
                    assert(chunks@[i as int].content_hash@ == content);
                }
            }
            assert forall|content: Seq<char>| #[trigger]
                table@.contains_key(content) implies slot_fits(
                chunks@,
                known,
                plan.missing@,
                table@[content] as int,
                content,
            ) by {
                if old_table.contains_key(content) {
                    assert(slot_fits(
                        chunks@,
                        known,
                        before.missing@,
                        old_table[content] as int,
                        content,
                    ));
                    if plan.missing@ != before.missing@ {
                        lemma_slot_grows(
                            chunks@,
                            known,
                            before.missing@,
                            i,
                            old_table[content] as int,
                            content,
                        );
                    }
                }
            }
            assert forall|k: int| 0 <= k < i + 1 implies slot_fits(
                chunks@,
                known,
                plan.missing@,
                #[trigger] plan.slots@[k] as int,
                chunks@[k].content_hash@,
            ) by {
                if k < i {
                    assert(plan.slots@[k] == before.slots@[k]);
                    assert(slot_fits(
                        chunks@,
                        known,
                        before.missing@,
                        before.slots@[k] as int,
                        chunks@[k].content_hash@,
                    ));
                    if plan.missing@ != before.missing@ {
                        lemma_slot_grows(
                            chunks@,
                            known,
                            before.missing@,
                            i,
                            before.slots@[k] as int,
                            chunks@[k].content_hash@,
                        );
                    }
                }
            }
        }
        i = i + 1;
    }
    plan
}

proof fn lemma_new_chunks(chunks: Seq<Chunk>, cached: Seq<Seq<char>>, n: nat)
    requires
        n <= chunks.len(),
    ensures
        forall|a: int|
            0 <= a < new_chunks(chunks, cached, n).len() ==> {
                &&& 0 <= #[trigger] new_chunks(chunks, cached, n)[a] < n
                &&& is_new(chunks, cached, new_chunks(chunks, cached, n)[a])
            },
        forall|a: int, b: int|
            0 <= a < b < new_chunks(chunks, cached, n).len() ==> (#[trigger] new_chunks(
                chunks,
                cached,
                n,
            )[a]) < (#[trigger] new_chunks(chunks, cached, n)[b]),
    decreases n,
{
    if n > 0 {
        lemma_new_chunks(chunks, cached, (n - 1) as nat);
        let before = new_chunks(chunks, cached, (n - 1) as nat);
        let all = new_chunks(chunks, cached, n);
        assert forall|a: int| 0 <= a < all.len() implies 0 <= #[trigger] all[a] < n && is_new(
            chunks,
            cached,
            all[a],
        ) by {
            if a < before.len() {
                assert(all[a] == before[a]);
            }
        }
        assert forall|a: int, b: int| 0 <= a < b < all.len() implies (#[trigger] all[a]) < (
        #[trigger] all[b]) by {
            assert(all[a] == before[a]);
            if b < before.len() {
                assert(all[b] == before[b]);
            }
        }
    }
}

/// No content is embedded that has a vector already, and none is embedded twice.
pub proof fn law_each_content_is_embedded_once(
    plan: EmbeddingPlan,
    chunks: Seq<Chunk>,
    cached: Seq<Seq<char>>,
)
    requires
        plans(plan, chunks, cached, chunks.len()),
    ensures
        forall|a: int|
            0 <= a < plan.missing@.len() ==> (#[trigger] plan.missing@[a]) < chunks.len()
                && !cached.contains(chunks[plan.missing@[a] as int].content_hash@),
        forall|a: int, b: int|
            0 <= a < b < plan.missing@.len() ==> chunks[(#[trigger] plan.missing@[a]) as int].content_hash@
                != chunks[(#[trigger] plan.missing@[b]) as int].content_hash@,
{
    let all = new_chunks(chunks, cached, chunks.len());
    let plain = |i: usize| i as int;
    lemma_new_chunks(chunks, cached, chunks.len());
    assert forall|a: int| 0 <= a < plan.missing@.len() implies #[trigger] plan.missing@[a] == all[a] by {
        assert(plan.missing@.map_values(plain)[a] == plan.missing@[a] as int);
    }
    assert forall|a: int, b: int| 0 <= a < b < plan.missing@.len() implies chunks[(
    #[trigger] plan.missing@[a]) as int].content_hash@ != chunks[(
    #[trigger] plan.missing@[b]) as int].content_hash@ by {
        assert(all[a] < all[b]);
        assert(is_new(chunks, cached, all[b]));
    }
}

/// Where all contents have vectors already, nothing is embedded.
pub proof fn law_known_contents_are_not_embedded(
    plan: EmbeddingPlan,
    chunks: Seq<Chunk>,
    cached: Seq<Seq<char>>,
)
    requires
        plans(plan, chunks, cached, chunks.len()),
        forall|i: int| 0 <= i < chunks.len() ==> #[trigger] is_cached(chunks, cached, i),
    ensures
        plan.missing@.len() == 0,
        plan.reused_chunks == chunks.len(),
{
    lemma_all_cached(chunks, cached, chunks.len());
    assert(plan.missing@.map_values(|i: usize| i as int).len() == 0);
}

proof fn lemma_all_cached(chunks: Seq<Chunk>, cached: Seq<Seq<char>>, n: nat)
    requires
        n <= chunks.len(),
        forall|i: int| 0 <= i < chunks.len() ==> #[trigger] is_cached(chunks, cached, i),
    ensures
        new_chunks(chunks, cached, n).len() == 0,
        cached_count(chunks, cached, n) == n,
    decreases n,
{
    if n > 0 {
        lemma_all_cached(chunks, cached, (n - 1) as nat);
        assert(is_cached(chunks, cached, n - 1));
    }
}

/// The ranges cover `total` in order: each but the last has `size` items, and the last
/// has at most as many.
pub open spec fn covers_in_batches(
    ranges: Seq<(usize, usize)>,
    total: usize,
    size: usize,
) -> bool {
    &&& ranges.len() == 0 <==> total == 0
    &&& ranges.len() > 0 ==> ranges[0].0 == 0 && ranges.last().1 == total
    &&& forall|i: int|
        0 <= i < ranges.len() ==> (#[trigger] ranges[i]).0 < ranges[i].1 <= ranges[i].0 + size
    &&& forall|i: int, j: int|
        0 <= i && j == i + 1 && j < ranges.len() ==> (#[trigger] ranges[i]).1 == ranges[i].0
            + size && ranges[i].1 == (#[trigger] ranges[j]).0
}

/// Part `total` items into batches of `size`.
pub fn batches(total: usize, size: usize) -> (r: Vec<(usize, usize)>)
    requires
        size > 0,
    ensures
        covers_in_batches(r@, total, size),
{
    let mut out: Vec<(usize, usize)> = Vec::new();
    let mut start: usize = 0;
    while start < total
        invariant
            size > 0,
            start <= total,
            covers_in_batches(out@, start, size),
            start < total ==> forall|i: int|
                0 <= i < out@.len() ==> (#[trigger] out@[i]).1 == out@[i].0 + size,
        decreases total - start,
    {
        let end: usize = if total - start > size {
            start + size
        } else {
            total
        };
        let ghost before = out@;
        out.push((start, end));
        proof {
            assert forall|i: int, j: int| 0 <= i && j == i + 1 && j < out@.len() implies (
            #[trigger] out@[i]).1 == out@[i].0 + size && out@[i].1 == (#[trigger] out@[j]).0 by {
                assert(out@[i] == before[i]);
                if j == before.len() {
                    assert(before.last() == before[i]);
                }
            }
        }
        start = end;
    }
    out
}

/// The dimension of an index: that of its vectors, or of the previous one where it has
/// none.
pub fn dimension_for(first_vector: Option<usize>, previous: Option<usize>) -> (r: usize)
    ensures
        r == match first_vector {
            Some(length) => length,
            None => match previous {
                Some(dimension) => dimension,
                None => 1,
            },
        },
{
    match first_vector {
        Some(length) => length,
        None => match previous {
            Some(dimension) => dimension,
            None => 1,
        },
    }
}

/// Report an indexing run.
pub fn index_report(
    workspace: &Workspace,
    scan: &Scan,
    plan: &EmbeddingPlan,
    total_nanoseconds: u64,
) -> (r: IndexReport)
    ensures
        r.workspace.id@ == workspace.id@,
        r.workspace.path@ == workspace.path@,
        r.files == scan.files.keys().len(),
        r.chunks == scan.chunks@.len(),
        r.embedded_chunks == plan.missing@.len(),
        r.reused_chunks == plan.reused_chunks,
        r.parsed_files == scan.parsed_files,
        r.unchanged_files == scan.unchanged_files,
        r.removed_files == scan.removed_files,
        r.total_nanoseconds == total_nanoseconds,
{
    IndexReport {
        workspace: workspace.clone(),
        files: scan.files.len(),
        chunks: scan.chunks.len(),
        embedded_chunks: plan.missing.len(),
        reused_chunks: plan.reused_chunks,
        parsed_files: scan.parsed_files,
        unchanged_files: scan.unchanged_files,
        removed_files: scan.removed_files,
        total_nanoseconds,
    }
}

/// The manifest of a scan.
pub fn next_manifest(workspace: &Workspace, scan: Scan) -> (r: Manifest)
    ensures
        r@ == (manifest::ManifestView {
            version: manifest::VERSION,
            workspace_id: workspace.id@,
            workspace_path: workspace.path@,
            fingerprint: scan@.fingerprint,
            files: scan@.files,
        }),
{
    Manifest {
        version: manifest::VERSION,
        workspace_id: workspace.id.clone(),
        workspace_path: workspace.path.clone(),
        fingerprint: scan.fingerprint,
        files: scan.files,
    }
}

// ---------------------------------------------------------------------------
// Status
// ---------------------------------------------------------------------------

/// Which language servers run for a workspace.
#[derive(Debug, Clone, Copy)]
pub struct RunningAnalyzers {
    pub rust: bool,
    pub csharp: bool,
    pub typescript: bool,
    pub python: bool,
}

/// Report the state of a workspace. `chunks` counts the rows of the snapshot.
pub fn status(
    workspace: &Workspace,
    snapshot: Option<SnapshotInfo>,
    chunks: usize,
    indexing: bool,
    watched: bool,
    running: RunningAnalyzers,
    stored_fingerprint: &str,
    current_fingerprint: &str,
    identity: &str,
) -> (r: Status)
    ensures
        r.workspace.id@ == workspace.id@,
        r.workspace.path@ == workspace.path@,
        r.indexed == (snapshot is Some),
        r.indexing == indexing,
        r.chunks == chunks,
        r.embedding_dimension == if snapshot is Some && chunks > 0 {
            Some(snapshot->0.dimension)
        } else {
            None
        },
        r.compatible == (snapshot is Some && snapshot->0.identity@ == identity@),
        r.stale == (snapshot is Some && files_changed(stored_fingerprint@, current_fingerprint@)),
        r.watched == watched,
        r.analyzer_running == running.rust,
        r.csharp_analyzer_running == running.csharp,
        r.typescript_analyzer_running == running.typescript,
        r.python_analyzer_running == running.python,
        match snapshot {
            Some(info) => r.indexed_at_unix_seconds == Some(info.indexed_at),
            None => r.indexed_at_unix_seconds is None,
        },
{
    let mut embedding_dimension: Option<usize> = None;
    let mut compatible = false;
    let mut stale = false;
    let indexed = snapshot.is_some();
    let indexed_at_unix_seconds = match snapshot {
        Some(info) => {
            if chunks > 0 {
                embedding_dimension = Some(info.dimension);
            }
            compatible = text::str_eq(info.identity.as_str(), identity);
            stale = is_stale(stored_fingerprint, current_fingerprint);
            Some(info.indexed_at)
        },
        None => None,
    };
    Status {
        workspace: workspace.clone(),
        indexed,
        indexing,
        chunks,
        embedding_dimension,
        compatible,
        stale,
        watched,
        analyzer_running: running.rust,
        csharp_analyzer_running: running.csharp,
        typescript_analyzer_running: running.typescript,
        python_analyzer_running: running.python,
        indexed_at_unix_seconds,
    }
}

/// List every file that the manifest has cached chunks for, in the order of their
/// paths.
pub fn indexed_files(files: &Table<CachedFile>) -> (r: Vec<IndexedFile>)
    ensures
        order::ascending(files.keys()),
        r@.len() == files.keys().len(),
        forall|i: int|
            0 <= i < r@.len() ==> {
                &&& (#[trigger] r@[i]).relative_file_path@ == files.keys()[i]
                &&& files@.contains_key(files.keys()[i])
                &&& r@[i].language@ == files@[files.keys()[i]].language@
                &&& r@[i].chunks == files@[files.keys()[i]].chunks@.len()
            },
{
    let total: usize = files.len();
    let mut out: Vec<IndexedFile> = Vec::new();
    let mut i: usize = 0;
    while i < total
        invariant
            i <= total == files.keys().len(),
            out@.len() == i,
            forall|k: int|
                0 <= k < i ==> {
                    &&& (#[trigger] out@[k]).relative_file_path@ == files.keys()[k]
                    &&& files@.contains_key(files.keys()[k])
                    &&& out@[k].language@ == files@[files.keys()[k]].language@
                    &&& out@[k].chunks == files@[files.keys()[k]].chunks@.len()
                },
        decreases total - i,
    {
        let (path, file) = files.entry(i);
        out.push(
            IndexedFile {
                relative_file_path: path.clone(),
                language: file.language.clone(),
                chunks: file.chunks.len(),
            },
        );
        i = i + 1;
    }
    out
}

// ---------------------------------------------------------------------------
// Watching
// ---------------------------------------------------------------------------

/// A state of watching a workspace.
#[derive(Debug, Clone, Copy, PartialEq, Eq, Structural)]
pub enum WatchState {
    /// Waiting for the next poll.
    Waiting,
    /// Fingerprinting the files.
    Scanning,
    /// The files changed; waiting for them to settle.
    Debouncing,
    /// Indexing.
    Indexing,
    /// The watch was cancelled.
    Stopped,
}

/// What happens to a watch.
#[derive(Debug, Clone, Copy, PartialEq, Eq, Structural)]
pub enum WatchEvent {
    Cancelled,
    /// The time that was waited for is over.
    Elapsed,
    /// The files have the fingerprint in the manifest.
    Unchanged,
    /// The files have another fingerprint.
    Changed,
    /// Fingerprinting failed.
    ScanFailed,
    /// Indexing is over, whether or not it worked.
    Indexed,
}

/// The state behind an event. Cancellation is seen while waiting.
pub open spec fn watch_next(state: WatchState, event: WatchEvent) -> WatchState {
    match (state, event) {
        (WatchState::Waiting, WatchEvent::Cancelled) => WatchState::Stopped,
        (WatchState::Waiting, WatchEvent::Elapsed) => WatchState::Scanning,
        (WatchState::Scanning, WatchEvent::Changed) => WatchState::Debouncing,
        (WatchState::Scanning, WatchEvent::Unchanged) => WatchState::Waiting,
        (WatchState::Scanning, WatchEvent::ScanFailed) => WatchState::Waiting,
        (WatchState::Debouncing, WatchEvent::Cancelled) => WatchState::Stopped,
        (WatchState::Debouncing, WatchEvent::Elapsed) => WatchState::Indexing,
        (WatchState::Indexing, WatchEvent::Indexed) => WatchState::Waiting,
        _ => state,
    }
}

/// The state behind an event.
pub fn watch_advance(state: WatchState, event: WatchEvent) -> (r: WatchState)
    ensures
        r == watch_next(state, event),
{
    match (state, event) {
        (WatchState::Waiting, WatchEvent::Cancelled) => WatchState::Stopped,
        (WatchState::Waiting, WatchEvent::Elapsed) => WatchState::Scanning,
        (WatchState::Scanning, WatchEvent::Changed) => WatchState::Debouncing,
        (WatchState::Scanning, WatchEvent::Unchanged) => WatchState::Waiting,
        (WatchState::Scanning, WatchEvent::ScanFailed) => WatchState::Waiting,
        (WatchState::Debouncing, WatchEvent::Cancelled) => WatchState::Stopped,
        (WatchState::Debouncing, WatchEvent::Elapsed) => WatchState::Indexing,
        (WatchState::Indexing, WatchEvent::Indexed) => WatchState::Waiting,
        _ => state,
    }
}

/// What a scan of a watched workspace says, by the fingerprint in the manifest and the
/// present one.
pub fn watch_scan(persisted: &str, current: &str) -> (r: WatchEvent)
    ensures
        r == if persisted@ == current@ {
            WatchEvent::Unchanged
        } else {
            WatchEvent::Changed
        },
{
    if text::str_eq(persisted, current) {
        WatchEvent::Unchanged
    } else {
        WatchEvent::Changed
    }
}

/// A watch indexes only behind a change and the time to settle, a failed scan changes
/// nothing, and a cancelled watch stays stopped.
pub proof fn law_watching(state: WatchState, event: WatchEvent)
    ensures
        watch_next(state, event) == WatchState::Indexing && state != WatchState::Indexing ==> state
            == WatchState::Debouncing && event == WatchEvent::Elapsed,
        watch_next(state, event) == WatchState::Debouncing && state != WatchState::Debouncing
            ==> state == WatchState::Scanning && event == WatchEvent::Changed,
        watch_next(WatchState::Scanning, WatchEvent::ScanFailed) == WatchState::Waiting,
        watch_next(WatchState::Stopped, event) == WatchState::Stopped,
        event == WatchEvent::Cancelled && (state == WatchState::Waiting || state
            == WatchState::Debouncing) ==> watch_next(state, event) == WatchState::Stopped,
{
}

/// Report a request to watch a workspace that is indexed.
pub fn watch_report(workspace: &Workspace, already_watched: bool) -> (r: WatchReport)
    ensures
        r.workspace.id@ == workspace.id@,
        r.workspace.path@ == workspace.path@,
        r.watched,
        r.already_in_requested_state == already_watched,
{
    WatchReport {
        workspace: workspace.clone(),
        watched: true,
        already_in_requested_state: already_watched,
    }
}

/// Report a request to stop watching a workspace.
pub fn unwatch_report(workspace: &Workspace, was_watched: bool) -> (r: WatchReport)
    ensures
        r.workspace.id@ == workspace.id@,
        r.workspace.path@ == workspace.path@,
        !r.watched,
        r.already_in_requested_state == !was_watched,
{
    WatchReport {
        workspace: workspace.clone(),
        watched: false,
        already_in_requested_state: !was_watched,
    }
}

// ---------------------------------------------------------------------------
// What a search does about its index
// ---------------------------------------------------------------------------

/// Without a snapshot a search has one to make. With one it is looked at again only where
/// that is asked for on each search; else a snapshot of the same configuration is read as it
/// is, and one of another configuration fails the search.
pub proof fn law_searches_begin_as_configured(snapshot: Option<bool>, freshness: IndexFreshness)
    ensures
        ({
            let state = first_state(snapshot, freshness);
            &&& snapshot is None <==> state == IndexState::Unindexed
            &&& snapshot is Some && freshness == IndexFreshness::OnSearch ==> state
                == (IndexState::Due { changed: snapshot->0 })
            &&& snapshot == Some(false) && freshness != IndexFreshness::OnSearch ==> state
                == (IndexState::Ready { action: IndexAction::Reused, warning: None })
            &&& snapshot == Some(true) && freshness != IndexFreshness::OnSearch ==> state
                == (IndexState::Failed { failure: IndexFailure::ConfigurationChanged })
        }),
{
}

/// The snapshot was made with another embedding configuration, as far as a state knows.
pub open spec fn is_incompatible(state: IndexState) -> bool {
    match state {
        IndexState::Due { changed } => changed,
        IndexState::Fingerprint { changed } => changed,
        IndexState::Stale { changed } => changed,
        IndexState::Refreshing { changed } => changed,
        IndexState::RefreshWait { changed } => changed,
        IndexState::RefreshCheck { changed } => changed,
        _ => false,
    }
}

/// What a search reports is what happened: an index is created or refreshed only where
/// indexing succeeded, a job was waited for only where it left a snapshot, and a snapshot is
/// reused without a warning only where it was not due or its files had not changed. With a
/// warning it is reused only where refreshing failed or the wait was over.
pub proof fn law_searches_report_what_happened(state: IndexState, event: IndexEvent)
    requires
        !is_over(state),
    ensures
        ({
            let yes = event == IndexEvent::Yes;
            let command = command_of(state);
            match next_state(state, event) {
                IndexState::Ready { action, warning } => match action {
                    IndexAction::Created => command == IndexCommand::CreateIndex && yes
                        && warning is None,
                    IndexAction::RefreshedIncrementally => command == IndexCommand::RefreshIndex
                        && yes && warning is None,
                    IndexAction::WaitedForExistingJob => warning is None && (command
                        == IndexCommand::LookForSnapshot && yes || command
                        == IndexCommand::CompareAgain && !yes),
                    IndexAction::Reused => !is_incompatible(state) && match warning {
                        None => !yes && (command == IndexCommand::CheckDue || command
                            == IndexCommand::CompareFingerprint),
                        Some(IndexWarning::RefreshUnavailable) => command
                            == IndexCommand::RefreshIndex && !yes,
                        Some(IndexWarning::TimedOut) => command == IndexCommand::LockFor && !yes,
                    },
                },
                IndexState::Failed { failure } => match failure {
                    IndexFailure::CreateFailed => command == IndexCommand::CreateIndex && !yes,
                    IndexFailure::SharedFailure => command == IndexCommand::LookForCause && yes,
                    IndexFailure::RefreshFailed => command == IndexCommand::RefreshIndex && !yes
                        && is_incompatible(state),
                    IndexFailure::RefreshBusy => command == IndexCommand::LockFor && !yes
                        && is_incompatible(state),
                    IndexFailure::ConfigurationChanged => false,
                },
                next => next is Creating || next is CreateCheck || next is CreateWait
                    || next is CreateWaitCheck || next is CreateCause || is_incompatible(next)
                    == is_incompatible(state),
            }
        }),
{
}

/// A snapshot whose files changed, or that was made with another configuration, is refreshed
/// as soon as the lock is held, and another job that refreshed it meanwhile is made use of.
pub proof fn law_stale_snapshots_are_refreshed(changed: bool)
    ensures
        ({
            let (yes, no) = (IndexEvent::Yes, IndexEvent::No);
            let stale = next_state(IndexState::Fingerprint { changed }, yes);
            &&& next_state(IndexState::Due { changed }, yes) == (IndexState::Fingerprint { changed })
            &&& next_state(IndexState::Due { changed: true }, no) == (IndexState::Stale {
                changed: true,
            })
            &&& next_state(IndexState::Fingerprint { changed: true }, no) == (IndexState::Stale {
                changed: true,
            })
            &&& command_of(stale) == IndexCommand::TryLock
            &&& command_of(next_state(stale, yes)) == IndexCommand::RefreshIndex
            &&& command_of(next_state(stale, no)) == IndexCommand::LockFor
            &&& command_of(next_state(next_state(stale, no), yes)) == IndexCommand::CompareAgain
            &&& command_of(next_state(next_state(next_state(stale, no), yes), yes))
                == IndexCommand::RefreshIndex
        }),
{
}

/// Files have changed unless the fingerprint is the one that was stored.
pub proof fn law_fingerprints_tell_changes(stored: Seq<char>, current: Seq<char>)
    ensures
        !files_changed(stored, current) <==> stored.len() > 0 && stored == current,
{
}

proof fn lemma_new_chunk_of(chunks: Seq<Chunk>, cached: Seq<Seq<char>>, n: nat, i: int) -> (j: int)
    requires
        0 <= i < n <= chunks.len(),
        !cached.contains(chunks[i].content_hash@),
    ensures
        0 <= j <= i,
        new_chunks(chunks, cached, n).contains(j),
        chunks[j].content_hash@ == chunks[i].content_hash@,
    decreases n, i,
{
    if is_new(chunks, cached, i) {
        lemma_new_chunk_listed(chunks, cached, n, i);
        i
    } else {
        let k = choose|k: int|
            0 <= k < i && (#[trigger] chunks[k]).content_hash@ == chunks[i].content_hash@;
        lemma_new_chunk_of(chunks, cached, n, k)
    }
}

proof fn lemma_new_chunk_listed(chunks: Seq<Chunk>, cached: Seq<Seq<char>>, n: nat, i: int)
    requires
        0 <= i < n,
        is_new(chunks, cached, i),
    ensures
        new_chunks(chunks, cached, n).contains(i),
    decreases n,
{
    let out = new_chunks(chunks, cached, n);
    if i < n - 1 {
        lemma_new_chunk_listed(chunks, cached, (n - 1) as nat, i);
        let before = new_chunks(chunks, cached, (n - 1) as nat);
        let k = choose|k: int| 0 <= k < before.len() && before[k] == i;
        assert(out[k] == i);
    } else {
        assert(out.last() == i);
    }
}

/// Every chunk gets the vector of its own content: one from the cache where the cache has
/// one, and else that of the chunk that is embedded for it.
pub proof fn law_vectors_belong_to_their_contents(
    plan: EmbeddingPlan,
    chunks: Seq<Chunk>,
    cached: Seq<Seq<char>>,
    i: int,
)
    requires
        plans(plan, chunks, cached, chunks.len()),
        0 <= i < chunks.len(),
    ensures
        ({
            let slot = plan.slots@[i] as int;
            let content = chunks[i].content_hash@;
            let embedded = slot - cached.len();
            &&& plan.slots@.len() == chunks.len()
            &&& if cached.contains(content) {
                slot < cached.len() && cached[slot] == content
            } else {
                0 <= embedded < plan.missing@.len() && chunks[plan.missing@[embedded] as int].content_hash@
                    == content
            }
        }),
{
    assert(slot_fits(
        chunks,
        cached,
        plan.missing@,
        plan.slots@[i] as int,
        chunks[i].content_hash@,
    ));
}

/// Each content that the cache does not hold is embedded, by the first chunk that has it, and
/// the chunks whose content it holds count as reused.
pub proof fn law_missing_contents_are_embedded(
    plan: EmbeddingPlan,
    chunks: Seq<Chunk>,
    cached: Seq<Seq<char>>,
    i: int,
)
    requires
        plans(plan, chunks, cached, chunks.len()),
        0 <= i < chunks.len(),
        !cached.contains(chunks[i].content_hash@),
    ensures
        exists|a: int|
            0 <= a < plan.missing@.len() && (#[trigger] plan.missing@[a]) <= i
                && chunks[plan.missing@[a] as int].content_hash@ == chunks[i].content_hash@,
{
    let all = new_chunks(chunks, cached, chunks.len());
    let plain = |i: usize| i as int;
    let j = lemma_new_chunk_of(chunks, cached, chunks.len(), i);
    let a = choose|a: int| 0 <= a < all.len() && all[a] == j;
    assert(plan.missing@.map_values(plain)[a] == plan.missing@[a] as int);
}

proof fn lemma_cached_count(chunks: Seq<Chunk>, cached: Seq<Seq<char>>, n: nat)
    requires
        n <= chunks.len(),
    ensures
        cached_count(chunks, cached, n) == chunks.take(n as int).filter(
            |chunk: Chunk| cached.contains(chunk.content_hash@),
        ).len(),
    decreases n,
{
    reveal(Seq::filter);
    if n > 0 {
        lemma_cached_count(chunks, cached, (n - 1) as nat);
        assert(chunks.take(n as int).drop_last() =~= chunks.take(n - 1));
        assert(chunks.take(n as int).last() == chunks[n - 1]);
    }
}

/// The chunks whose content the cache holds count as reused.
pub proof fn law_cached_chunks_count_as_reused(
    plan: EmbeddingPlan,
    chunks: Seq<Chunk>,
    cached: Seq<Seq<char>>,
)
    requires
        plans(plan, chunks, cached, chunks.len()),
    ensures
        plan.reused_chunks == chunks.filter(
            |chunk: Chunk| cached.contains(chunk.content_hash@),
        ).len(),
{
    lemma_cached_count(chunks, cached, chunks.len());
    assert(chunks.take(chunks.len() as int) =~= chunks);
}

/// Every item is in a batch, and no batch is larger than the size of batches.
pub proof fn law_every_item_is_in_a_batch(
    ranges: Seq<(usize, usize)>,
    total: usize,
    size: usize,
    item: int,
)
    requires
        covers_in_batches(ranges, total, size),
        0 <= item < total,
    ensures
        exists|i: int|
            {
                &&& 0 <= i < ranges.len()
                &&& (#[trigger] ranges[i]).0 <= item < ranges[i].1
                &&& ranges[i].1 - ranges[i].0 <= size
            },
{
    lemma_item_in_a_batch(ranges, total, size, item, ranges.len());
}

proof fn lemma_item_in_a_batch(
    ranges: Seq<(usize, usize)>,
    total: usize,
    size: usize,
    item: int,
    n: nat,
)
    requires
        covers_in_batches(ranges, total, size),
        0 < n <= ranges.len(),
        0 <= item < ranges[n - 1].1,
    ensures
        exists|i: int|
            {
                &&& 0 <= i < ranges.len()
                &&& (#[trigger] ranges[i]).0 <= item < ranges[i].1
                &&& ranges[i].1 - ranges[i].0 <= size
            },
    decreases n,
{
    if ranges[n - 1].0 <= item {
        assert(ranges[n - 1].1 - ranges[n - 1].0 <= size);
    } else {
        assert(n > 1);
        assert(ranges[n - 2].1 == ranges[n - 1].0);
        lemma_item_in_a_batch(ranges, total, size, item, (n - 1) as nat);
    }
}

/// A watcher goes round: it waits, scans, lets changes settle, indexes them and waits again.
/// What does not belong to its state changes nothing.
pub proof fn law_the_watcher_goes_round(state: WatchState, event: WatchEvent)
    ensures
        watch_next(WatchState::Waiting, WatchEvent::Elapsed) == WatchState::Scanning,
        watch_next(WatchState::Scanning, WatchEvent::Changed) == WatchState::Debouncing,
        watch_next(WatchState::Scanning, WatchEvent::Unchanged) == WatchState::Waiting,
        watch_next(WatchState::Debouncing, WatchEvent::Elapsed) == WatchState::Indexing,
        watch_next(WatchState::Indexing, WatchEvent::Indexed) == WatchState::Waiting,
        watch_next(state, event) == WatchState::Stopped && state != WatchState::Stopped ==> event
            == WatchEvent::Cancelled,
        state == WatchState::Indexing && event != WatchEvent::Indexed ==> watch_next(state, event)
            == state,
{
}

/// What a search fails with or warns of tells the cause, where there is one, and how long it
/// has waited.
pub proof fn law_failures_tell_their_cause(cause: Seq<char>, waited: u64)
    ensures
        failure_text(IndexFailure::CreateFailed, cause) == cause,
        text::ends_with(failure_text(IndexFailure::SharedFailure, cause), cause),
        text::ends_with(failure_text(IndexFailure::RefreshFailed, cause), cause),
        text::ends_with(warning_text(IndexWarning::RefreshUnavailable, cause, waited), cause),
        text::contains(
            warning_text(IndexWarning::TimedOut, cause, waited),
            text::decimal(waited as nat),
        ),
{
    let none = Seq::<char>::empty();
    text::law_parts_stand_where_they_are_put(
        "indexing failed while waiting for the in-progress index job: "@,
        cause,
        none,
    );
    text::law_parts_stand_where_they_are_put(
        "embedding configuration changed; automatic reindex failed and the previous incompatible snapshot cannot be searched: "@,
        cause,
        none,
    );
    text::law_parts_stand_where_they_are_put(
        "index refresh unavailable; reusing previous snapshot: "@,
        cause,
        none,
    );
    text::law_parts_stand_where_they_are_put(
        "timed out after "@,
        text::decimal(waited as nat),
        "s waiting for an in-progress index refresh; reusing previous snapshot"@,
    );
}

} // verus!
