//! The decisions of the remote daemon's loop: which folders to list, what a
//! finished walk leads to, and when the next cycle starts.
use vstd::prelude::*;
use crate::reconcile::RemoteObject;
use crate::versions::VersionMap;

verus! {

/// Seconds between two completed cycles.
pub const SYNC_INTERVAL_SECS: u64 = 10;

/// The remote side of the configuration.
pub struct DriveConfig {
    /// Name of the remote folder, in the drive's root, that is mirrored.
    pub dir: String,
}

pub struct Config {
    /// Local directory that mirrors the remote folder.
    pub local_dir: String,
    pub drive: DriveConfig,
}

/// The reconciliation engine for one remote root folder.
pub struct RemoteDaemon {
    pub config: Config,
    pub remote_dir_id: String,
}

impl RemoteDaemon {
    pub fn new(config: Config, remote_dir_id: String) -> (r: RemoteDaemon)
        ensures
            r.config == config,
            r.remote_dir_id == remote_dir_id,
    {
        RemoteDaemon { config, remote_dir_id }
    }

    /// The remote folder that a cycle starts from.
    pub fn root_id(&self) -> (r: &String)
        ensures
            r == &self.remote_dir_id,
    {
        &self.remote_dir_id
    }

    /// The local directory that a cycle starts from.
    pub fn root_path(&self) -> (r: &String)
        ensures
            r == &self.config.local_dir,
    {
        &self.config.local_dir
    }
}

/// What to do with a folder whose metadata was just fetched.
#[derive(PartialEq, Eq, Structural, Clone, Copy, Debug)]
pub enum FolderStep {
    /// It no longer exists remotely: nothing to do, and no error.
    Vanished,
    /// Its stamp equals the recorded one: its whole subtree is unchanged.
    Unchanged,
    /// List its children and reconcile them.
    List,
}

/// Decides on the folder `id` from its current metadata (`None` where the
/// remote store no longer has it) and the cache.
pub fn folder_step(id: &String, current: &Option<RemoteObject>, map: &VersionMap) -> (r: FolderStep)
    requires
        map.wf(),
    ensures
        r == FolderStep::Vanished <==> current is None,
        r == FolderStep::Unchanged <==> (current is Some && map@.contains_key(id@) && map@[id@].version
            == current->0.version@),
{
    match current {
        None => FolderStep::Vanished,
        Some(o) => match map.get(id) {
            Some(v) => if v.version == o.version {
                FolderStep::Unchanged
            } else {
                FolderStep::List
            },
            None => FolderStep::List,
        },
    }
}

/// How the walk of a cycle ended.
#[derive(PartialEq, Eq, Structural, Clone, Copy, Debug)]
pub enum WalkOutcome {
    Completed,
    /// A remote call reported that the session is no longer authorized.
    AuthorizationFailure,
    /// Any other failure: network, malformed data, filesystem.
    OtherFailure,
}

/// What a cycle does once its walk has ended.
#[derive(PartialEq, Eq, Structural, Clone, Copy, Debug)]
pub enum CycleAction {
    /// Write the updated cache back.
    Persist,
    /// Discard this cycle's cache edits and renew the session.
    Reauthorize,
    /// End the daemon with the failure.
    Fatal,
}

pub open spec fn walk_end_action(o: WalkOutcome) -> CycleAction {
    match o {
        WalkOutcome::Completed => CycleAction::Persist,
        WalkOutcome::AuthorizationFailure => CycleAction::Reauthorize,
        WalkOutcome::OtherFailure => CycleAction::Fatal,
    }
}

pub fn on_walk_end(o: WalkOutcome) -> (r: CycleAction)
    ensures
        r == walk_end_action(o),
{
    match o {
        WalkOutcome::Completed => CycleAction::Persist,
        WalkOutcome::AuthorizationFailure => CycleAction::Reauthorize,
        WalkOutcome::OtherFailure => CycleAction::Fatal,
    }
}

/// How a cycle ended, as the loop sees it.
#[derive(PartialEq, Eq, Structural, Clone, Copy, Debug)]
pub enum CycleEnd {
    /// The cache was persisted.
    Completed,
    /// The session was renewed; the cycle was abandoned.
    NotCompleted,
    Failed,
}

pub open spec fn reauthorized_end(ok: bool) -> CycleEnd {
    if ok {
        CycleEnd::NotCompleted
    } else {
        CycleEnd::Failed
    }
}

/// The end of a cycle that renewed its session, `ok` where the renewal succeeded.
pub fn on_reauthorized(ok: bool) -> (r: CycleEnd)
    ensures
        r == reauthorized_end(ok),
{
    if ok {
        CycleEnd::NotCompleted
    } else {
        CycleEnd::Failed
    }
}

/// What the loop does after a cycle.
#[derive(PartialEq, Eq, Structural, Clone, Copy, Debug)]
pub enum LoopStep {
    /// Sleep this many seconds, then start the next cycle.
    Sleep(u64),
    /// Start the next cycle at once.
    RetryNow,
    /// Leave the loop with the failure.
    Exit,
}

pub open spec fn loop_step_of(e: CycleEnd) -> LoopStep {
    match e {
        CycleEnd::Completed => LoopStep::Sleep(SYNC_INTERVAL_SECS),
        CycleEnd::NotCompleted => LoopStep::RetryNow,
        CycleEnd::Failed => LoopStep::Exit,
    }
}

pub fn next_step(e: CycleEnd) -> (r: LoopStep)
    ensures
        r == loop_step_of(e),
{
    match e {
        CycleEnd::Completed => LoopStep::Sleep(SYNC_INTERVAL_SECS),
        CycleEnd::NotCompleted => LoopStep::RetryNow,
        CycleEnd::Failed => LoopStep::Exit,
    }
}

/// A cycle whose walk met an authorization failure writes nothing back, and,
/// once the session is renewed, the next cycle starts without a pause.
pub proof fn lemma_authorization_recovery()
    ensures
        walk_end_action(WalkOutcome::AuthorizationFailure) != CycleAction::Persist,
        loop_step_of(reauthorized_end(true)) == LoopStep::RetryNow,
{
}

/// Why the mirrored remote folder could not be found.
#[derive(PartialEq, Eq, Structural, Clone, Copy, Debug)]
pub enum RootError {
    /// No object of that name.
    NotFound,
    /// The first object of that name is not a folder.
    NotAFolder,
}

/// Picks the mirrored folder among the objects that a search by its name
/// returned: the first of them, which must be a folder.
pub fn select_root(found: &Vec<RemoteObject>) -> (r: Result<String, RootError>)
    ensures
        found@.len() == 0 ==> r == Err::<String, RootError>(RootError::NotFound),
        found@.len() > 0 && !found@[0].is_folder ==> r == Err::<String, RootError>(
            RootError::NotAFolder,
        ),
        found@.len() > 0 && found@[0].is_folder ==> r is Ok && r->Ok_0@ == found@[0].id@,
{
    if found.len() == 0 {
        Err(RootError::NotFound)
    } else if !found[0].is_folder {
        Err(RootError::NotAFolder)
    } else {
        Ok(found[0].id.clone())
    }
}

} // verus!
