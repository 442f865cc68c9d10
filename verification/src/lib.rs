//! Hides folders of a note-taking tablet during a time window and keeps the
//! tablet's sync client away from its cloud while they are hidden.
//!
//! The crate holds the decisions and data structures; reading files, running
//! commands and resolving host names is left to the caller.
pub mod directory;
pub mod report;
pub mod sync;
pub mod systemd;
pub mod text;
pub mod util;

use crate::directory::{id_views, NodeRef, Tree, TreeModel, Uuid};
use crate::report::node_views;
use crate::text::views;
use crate::util::time::{hour_minute, in_window, should_lock, try_to_time, Clock, Time, TimeError};
use crate::util::{missing_paths, without_overlapping, without_overlapping_spec};
use vstd::prelude::*;

verus! {

/// What the program is told on its command line.
#[derive(Debug, Clone)]
pub struct Args {
    /// The paths of the folders to lock, as the tablet shows them.
    pub lock: Vec<String>,
    /// When to hide the folders, as in `23:59`.
    pub start: String,
    /// When to show them again, as in `23:59`.
    pub end: String,
    /// The time zone, which the tablet forgets with every update.
    pub timezone: String,
    /// Whether to leave the sync alone while the folders are locked.
    pub allow_sync: bool,
}

/// The folders that the paths among `paths` lead to, in the order of the
/// paths.
pub open spec fn found_roots(tree: TreeModel, paths: Seq<Seq<char>>) -> Seq<int>
    decreases paths.len(),
{
    if paths.len() == 0 {
        Seq::empty()
    } else {
        match tree.resolve(paths.last()) {
            Some(root) => found_roots(tree, paths.drop_last()).push(root),
            None => found_roots(tree, paths.drop_last()),
        }
    }
}

/// The documents in and below `roots`, root after root.
pub open spec fn files_to_lock(tree: TreeModel, roots: Seq<int>) -> Seq<Seq<char>>
    decreases roots.len(),
{
    if roots.len() == 0 {
        Seq::empty()
    } else {
        files_to_lock(tree, roots.drop_last()) + tree.files_under(roots.last())
    }
}

/// What locking comes to: the folders to lock, the paths that lead to no
/// folder, and the documents to put away.
pub struct LockPlan {
    pub roots: Vec<NodeRef>,
    pub missing: Vec<String>,
    pub to_lock: Vec<Uuid>,
}

/// Finds the folders that `forbidden` names and all the documents in and
/// below them. A path that leads nowhere is set aside and does not keep the
/// others from being locked.
pub fn lock(tree: &Tree, forbidden: Vec<String>) -> (plan: LockPlan)
    requires
        tree.wf(),
    ensures
        node_views(plan.roots@) == found_roots(tree@, views(forbidden@)),
        views(plan.missing@) == missing_paths(tree@, views(forbidden@)),
        id_views(plan.to_lock@) == files_to_lock(tree@, node_views(plan.roots@)),
{
    let mut roots: Vec<NodeRef> = Vec::new();
    let mut missing: Vec<String> = Vec::new();
    let mut to_lock: Vec<Uuid> = Vec::new();
    let ghost all = views(forbidden@);
    let mut i: usize = 0;
    assert(all.take(0) == Seq::<Seq<char>>::empty());
    assert(node_views(roots@) =~= Seq::<int>::empty());
    assert(views(missing@) =~= Seq::<Seq<char>>::empty());
    assert(id_views(to_lock@) =~= Seq::<Seq<char>>::empty());
    while i < forbidden.len()
        invariant
            tree.wf(),
            i <= forbidden.len(),
            all == views(forbidden@),
            node_views(roots@) == found_roots(tree@, all.take(i as int)),
            views(missing@) == missing_paths(tree@, all.take(i as int)),
            id_views(to_lock@) == files_to_lock(tree@, node_views(roots@)),
        decreases forbidden.len() - i,
    {
        proof {
            assert(all.take(i + 1).drop_last() == all.take(i as int));
            assert(all.take(i + 1).last() == forbidden[i as int]@);
        }
        match tree.node_for(forbidden[i].as_str()) {
            Ok(root) => {
                let ghost before = node_views(roots@);
                match tree.descendant_files(root) {
                    Ok(files) => {
                        let ghost had = id_views(to_lock@);
                        let mut k: usize = 0;
                        assert(had + id_views(files@).take(0) =~= had);
                        while k < files.len()
                            invariant
                                k <= files.len(),
                                id_views(to_lock@) == had + id_views(files@).take(k as int),
                            decreases files.len() - k,
                        {
                            let id = files[k].duplicate();
                            proof {
                                assert(id_views(to_lock@.push(id)) =~= id_views(to_lock@).push(
                                    id@,
                                ));
                                assert(had + id_views(files@).take(k + 1) =~= (had + id_views(
                                    files@,
                                ).take(k as int)).push(id@));
                            }
                            to_lock.push(id);
                            k += 1;
                        }
                        assert(id_views(files@).take(k as int) == id_views(files@));
                    },
                    Err(_) => {},
                }
                proof {
                    assert(node_views(roots@.push(root)) =~= before.push(root@));
                    assert(before.push(root@).drop_last() == before);
                }
                roots.push(root);
            },
            Err(path) => {
                proof {
                    assert(views(missing@.push(path)) =~= views(missing@).push(path@));
                }
                missing.push(path);
            },
        }
        i += 1;
    }
    assert(all.take(i as int) == all);
    LockPlan { roots, missing, to_lock }
}

/// What a run is to do.
pub enum Decision {
    /// Hide these folders until `unlock_at`.
    Lock { forbidden: Vec<String>, unlock_at: Time, allow_sync: bool },
    /// Bring everything back.
    Unlock,
}

/// Why a run cannot be decided.
#[derive(Clone, Copy, Debug, PartialEq, Eq, Structural)]
pub enum RunError {
    /// The start of the window cannot be read.
    Start(TimeError),
    /// The end of the window cannot be read.
    End(TimeError),
}

/// What a run is to do.
pub ghost enum DecisionModel {
    Lock { forbidden: Seq<Seq<char>>, unlock_at: Clock, allow_sync: bool },
    Unlock,
}

/// What a run at `now` is to do with the arguments it was given: inside the
/// window lock the requested folders, without those that lie in another
/// requested folder, and outside of it unlock.
pub open spec fn decided(
    lock: Seq<Seq<char>>,
    start: Seq<char>,
    end: Seq<char>,
    allow_sync: bool,
    now: Clock,
) -> Result<DecisionModel, RunError> {
    match hour_minute(start) {
        Err(why) => Err(RunError::Start(why)),
        Ok(start) => match hour_minute(end) {
            Err(why) => Err(RunError::End(why)),
            Ok(end) => if in_window(now, start, end) {
                Ok(
                    DecisionModel::Lock {
                        forbidden: without_overlapping_spec(lock),
                        unlock_at: end,
                        allow_sync,
                    },
                )
            } else {
                Ok(DecisionModel::Unlock)
            },
        },
    }
}

/// What a decision says.
pub open spec fn decision_view(r: Result<Decision, RunError>) -> Result<DecisionModel, RunError> {
    match r {
        Ok(Decision::Lock { forbidden, unlock_at, allow_sync }) => Ok(
            DecisionModel::Lock { forbidden: views(forbidden@), unlock_at: unlock_at@, allow_sync },
        ),
        Ok(Decision::Unlock) => Ok(DecisionModel::Unlock),
        Err(why) => Err(why),
    }
}

/// Decides what a run at `now` is to do.
pub fn run(args: Args, now: Time) -> (r: Result<Decision, RunError>)
    ensures
        decision_view(r) == decided(
            views(args.lock@),
            args.start@,
            args.end@,
            args.allow_sync,
            now@,
        ),
{
    let start = match try_to_time(args.start.as_str()) {
        Ok(start) => start,
        Err(why) => {
            return Err(RunError::Start(why));
        },
    };
    let end = match try_to_time(args.end.as_str()) {
        Ok(end) => end,
        Err(why) => {
            return Err(RunError::End(why));
        },
    };
    let allow_sync = args.allow_sync;
    let forbidden = without_overlapping(args.lock);
    if should_lock(now, start, end) {
        Ok(Decision::Lock { forbidden, unlock_at: end, allow_sync })
    } else {
        Ok(Decision::Unlock)
    }
}

} // verus!
