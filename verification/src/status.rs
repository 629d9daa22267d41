//! Clean/unclean classification of one repository from its two signals:
//! whether a stateful operation (merge, rebase, …) is pending, and which
//! working-tree entries are ignored.

use vstd::prelude::*;

verus! {

/// How many working-tree entries are not ignored, i.e. count as changes.
pub open spec fn spec_changed_count(ignored: Seq<bool>) -> int
    decreases ignored.len(),
{
    if ignored.len() == 0 {
        0
    } else {
        spec_changed_count(ignored.drop_last()) + if ignored.last() {
            0int
        } else {
            1int
        }
    }
}

/// The classification of one repository.
pub struct StatusReport {
    /// No stateful operation pending and no non-ignored changed entry.
    pub clean: bool,
    /// The number of non-ignored changed entries.
    pub changed: usize,
}

/// Classify a repository: clean exactly when no stateful operation is in
/// progress and every changed working-tree entry is ignored.  `ignored`
/// holds, per changed entry, whether that entry is ignored.
pub fn classify_status(state_clean: bool, ignored: &Vec<bool>) -> (r: StatusReport)
    ensures
        r.changed == spec_changed_count(ignored@),
        r.clean == (state_clean && spec_changed_count(ignored@) == 0),
{
    let mut changed: usize = 0;
    let mut i: usize = 0;
    proof {
        assert(ignored@.subrange(0, 0).len() == 0);
    }
    while i < ignored.len()
        invariant
            0 <= i <= ignored@.len(),
            changed == spec_changed_count(ignored@.subrange(0, i as int)),
            changed <= i,
        decreases ignored.len() - i,
    {
        let ghost upto = ignored@.subrange(0, i as int + 1);
        proof {
            assert(upto.drop_last() =~= ignored@.subrange(0, i as int));
            assert(upto.last() == ignored@[i as int]);
        }
        if !ignored[i] {
            changed = changed + 1;
        }
        i = i + 1;
    }
    proof {
        assert(ignored@.subrange(0, i as int) =~= ignored@);
    }
    StatusReport { clean: state_clean && changed == 0, changed }
}

} // verus!
