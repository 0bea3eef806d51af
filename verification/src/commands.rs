use vstd::prelude::*;
use crate::fs::{FsNode, size_of};
use crate::process::{ProcessedResults, is_processing_of, process_results};
use crate::walk::{walk, walk_of, lemma_walk_sizes_bounded};

verus! {

/// The scan's global parameters: the root to walk from, the two keep
/// thresholds, the sort mode, and which command to run.
pub struct TreeWalk {
    pub command: Commands,
    pub from: String,
    pub min_mb: u64,
    pub min_age_days: u64,
    pub sort_by_age: bool,
}

/// The two commands: report matches, or delete them after confirmation.
pub enum Commands {
    Find(FindArgs),
    Delete(DeleteArgs),
}

/// The argument of the find command: the directory name to look for.
pub struct FindArgs {
    pub name: String,
}

/// The arguments of the delete command: the directory name to look for
/// and the supplied confirmation code, the "no code" sentinel when the
/// caller gave none.
pub struct DeleteArgs {
    pub name: String,
    pub code: String,
}

impl From<&DeleteArgs> for FindArgs {
    fn from(value: &DeleteArgs) -> (r: FindArgs) {
        FindArgs { name: value.name.clone() }
    }
}

impl vstd::std_specs::convert::FromSpecImpl<&DeleteArgs> for FindArgs {
    open spec fn obeys_from_spec() -> bool {
        true
    }

    open spec fn from_spec(v: &DeleteArgs) -> FindArgs {
        FindArgs { name: v.name }
    }
}

/// Walks the tree under `root` (whose display path is `command.from`) for
/// directories named `args.name`, then sorts, filters and summarizes the
/// matches under the thresholds and sort mode of `command`.
pub fn find(command: &TreeWalk, args: &FindArgs, root: &FsNode) -> (r: ProcessedResults)
    requires
        size_of(*root) <= u64::MAX,
        command.min_mb * 1000000 <= u64::MAX,
    ensures
        is_processing_of(
            r,
            walk_of(*root, command.from@, args.name@),
            command.min_mb * 1000000,
            command.min_age_days,
            command.sort_by_age,
        ),
{
    let results = walk(root, &command.from, &args.name);
    proof {
        lemma_walk_sizes_bounded(*root, command.from@, args.name@);
    }
    process_results(results, command.min_mb, command.min_age_days, command.sort_by_age)
}

/// What the delete command decides once the matches are processed and the
/// supplied code is checked.
pub enum DeleteDecision {
    /// No match passed the thresholds: print "nothing to delete" and stop,
    /// with no countdown and no gate consulted.
    Nothing,
    /// Matches were found but the code did not authorize: after the
    /// countdown, report the rejection and delete nothing.
    Rejected,
    /// Matches were found and the code authorized: after the countdown,
    /// delete every kept match, best-effort.
    Proceed,
}

/// The delete command's decision: nothing to do when no match passed the
/// thresholds; otherwise proceed exactly when the supplied code passed
/// the check.
pub fn delete_decision(found_dirs: u64, code_accepted: bool) -> (d: DeleteDecision)
    ensures
        d is Nothing <==> found_dirs == 0,
        d is Proceed <==> (found_dirs > 0 && code_accepted),
        d is Rejected <==> (found_dirs > 0 && !code_accepted),
{
    if found_dirs == 0 {
        DeleteDecision::Nothing
    } else if code_accepted {
        DeleteDecision::Proceed
    } else {
        DeleteDecision::Rejected
    }
}

} // verus!
