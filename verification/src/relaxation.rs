//! A ladder of ever weaker filters: the first stage that lets enough memories
//! through wins, and the last stage wins where none does.

use crate::select::{copy_flagged, count_flags, count_set, kept};
use crate::types::{item_views, MemoryItem};
use vstd::prelude::*;

verus! {

/// The names of the stages, weakest last.
pub const STAGE_NAMES: [&'static str; 5] = [
    "strict",
    "drop_importance_min",
    "drop_categories",
    "drop_subjects",
    "no_filters",
];

/// The number of stages.
pub const STAGES: usize = 5;

/// Runs the stages.
pub struct RelaxationLadder {
    /// How many memories a stage must let through to win.
    pub min_results: usize,
}

/// The stage that wins, given the flags of every stage up to it.
pub open spec fn winning(min_results: int, flags: Seq<Seq<bool>>, stage: int) -> bool {
    &&& 0 <= stage < STAGES
    &&& stage < flags.len()
    &&& (stage == STAGES - 1 || count_set(flags[stage]) >= min_results)
    &&& forall|s: int| 0 <= s < stage ==> count_set(#[trigger] flags[s]) < min_results
}

/// The flags say which memories pass the stage.
pub open spec fn stage_flags<P: Fn(usize, &MemoryItem) -> bool>(
    predicate: P,
    memories: Seq<MemoryItem>,
    stage: usize,
    flags: Seq<bool>,
) -> bool {
    flags.len() == memories.len() && forall|i: int|
        0 <= i < memories.len() ==> predicate.ensures((stage, &memories[i]), #[trigger] flags[i])
}

impl RelaxationLadder {
    /// A ladder that wants at least one result.
    pub fn new(min_results: usize) -> (r: RelaxationLadder)
        ensures
            r.min_results == (if min_results == 0 {
                1usize
            } else {
                min_results
            }),
    {
        RelaxationLadder {
            min_results: if min_results == 0 {
                1
            } else {
                min_results
            },
        }
    }

    /// The memories that the winning stage lets through. `predicate(stage, m)` says
    /// whether `m` passes the stage.
    pub fn run<P: Fn(usize, &MemoryItem) -> bool>(
        &self,
        memories: &[MemoryItem],
        predicate: P,
    ) -> (out: Vec<MemoryItem>)
        requires
            forall|s: usize, m: &MemoryItem| s < STAGES ==> #[trigger] predicate.requires((s, m)),
        ensures
            exists|flags: Seq<Seq<bool>>, stage: int| #[trigger]
                winning(self.min_results as int, flags, stage) && item_views(out@) == kept(
                    item_views(memories@),
                    flags[stage],
                ) && forall|s: int|
                    0 <= s <= stage ==> stage_flags(
                        predicate,
                        memories@,
                        s as usize,
                        #[trigger] flags[s],
                    ),
    {
        let mut stage: usize = 0;
        let ghost mut all: Seq<Seq<bool>> = Seq::empty();
        loop
            invariant
                stage < STAGES,
                forall|s: usize, m: &MemoryItem| s < STAGES ==> #[trigger] predicate.requires((s, m)),
                all.len() == stage,
                forall|s: int| 0 <= s < stage ==> count_set(#[trigger] all[s]) < self.min_results,
                forall|s: int|
                    0 <= s < stage ==> stage_flags(
                        predicate,
                        memories@,
                        s as usize,
                        #[trigger] all[s],
                    ),
            decreases STAGES - stage,
        {
            let mut flags: Vec<bool> = Vec::new();
            let mut i: usize = 0;
            while i < memories.len()
                invariant
                    i <= memories@.len(),
                    stage < STAGES,
                    flags@.len() == i,
                    forall|s: usize, m: &MemoryItem|
                        s < STAGES ==> #[trigger] predicate.requires((s, m)),
                    forall|k: int|
                        0 <= k < i ==> predicate.ensures(
                            (stage, &memories@[k]),
                            #[trigger] flags@[k],
                        ),
                decreases memories@.len() - i,
            {
                flags.push(predicate(stage, &memories[i]));
                i += 1;
            }
            let n: usize = count_flags(&flags);
            proof {
                let next = all.push(flags@);
                assert(stage_flags(predicate, memories@, stage, flags@));
                assert forall|s: int| 0 <= s < stage + 1 implies stage_flags(
                    predicate,
                    memories@,
                    s as usize,
                    #[trigger] next[s],
                ) by {
                    if s < stage {
                        assert(next[s] == all[s]);
                    }
                }
                assert forall|s: int| 0 <= s < stage implies count_set(#[trigger] next[s])
                    < self.min_results by {
                    assert(next[s] == all[s]);
                }
                all = next;
            }
            if n >= self.min_results || stage == STAGES - 1 {
                let out = copy_flagged(memories, &flags);
                assert(all[stage as int] == flags@);
                assert(winning(self.min_results as int, all, stage as int));
                return out;
            }
            stage += 1;
        }
    }
}

impl Default for RelaxationLadder {
    fn default() -> (r: RelaxationLadder)
        ensures
            r.min_results == 3,
    {
        RelaxationLadder::new(3)
    }
}

} // verus!
