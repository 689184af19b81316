//! The run orchestrator's outcome handling: the per-directory result and
//! the aggregation that surfaces directory-level failures while leaving
//! successful runs alone.

use vstd::prelude::*;

verus! {

/// The outcome of one directory's run. Per-file warnings do not fail a
/// run; only a directory-level error does.
pub enum RunResult {
    /// The directory's pipeline completed; `moved` files were relocated.
    Completed { dir: Vec<u8>, moved: usize },
    /// A directory-level failure that aborted this directory's pipeline
    /// without touching any other directory.
    Failed { dir: Vec<u8>, cause: String },
}

/// The directory-level failures among the results, in order.
pub open spec fn failures_of(s: Seq<RunResult>) -> Seq<RunResult>
    decreases s.len(),
{
    if s.len() == 0 {
        seq![]
    } else if s.last() is Failed {
        failures_of(s.drop_last()).push(s.last())
    } else {
        failures_of(s.drop_last())
    }
}

/// Keeps exactly the directory-level failures, in order, for the final
/// report; completed runs are dropped.
pub fn collect_failures(results: Vec<RunResult>) -> (r: Vec<RunResult>)
    ensures
        r@ == failures_of(results@),
{
    let ghost all = results@;
    let mut rest = results;
    let mut r: Vec<RunResult> = Vec::new();
    let ghost mut i: int = 0;
    while rest.len() > 0
        invariant
            0 <= i <= all.len(),
            rest@ == all.skip(i),
            r@ == failures_of(all.take(i)),
        decreases rest@.len(),
    {
        let x = rest.remove(0);
        proof {
            assert(all.skip(i)[0] == all[i]);
            assert(all.skip(i).remove(0) =~= all.skip(i + 1));
            assert(all.take(i + 1).drop_last() =~= all.take(i));
            assert(all.take(i + 1).last() == all[i]);
        }
        match x {
            RunResult::Failed { dir, cause } => {
                r.push(RunResult::Failed { dir, cause });
            },
            RunResult::Completed { .. } => {},
        }
        proof {
            i = i + 1;
        }
    }
    proof {
        assert(all.take(all.len() as int) =~= all);
    }
    r
}

} // verus!
