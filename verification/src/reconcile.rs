//! Reconciliation of a freshly discovered set of repository roots against
//! the known registry, scoped to the working directory: compute what is
//! new and what has gone missing, and optionally edit the registry.

use vstd::prelude::*;

use crate::lines::contains_path;
use crate::lines::lemma_deep_view_chars;
use crate::lines::lemma_deep_view_paths;
use crate::lines::valid_entry;
use crate::registry::Registry;

verus! {

broadcast use lemma_deep_view_chars, lemma_deep_view_paths;

/// The paths in `discovered` that the in-scope registry does not know yet
/// (New = Discovered − Scope).
pub fn new_paths(discovered: &Vec<Vec<char>>, scope: &Registry) -> (r: Vec<Vec<char>>)
    ensures
        forall|q: Seq<char>| #[trigger] r.deep_view().contains(q)
            <==> (discovered.deep_view().contains(q) && !scope@.contains(q)),
        forall|k: int| 0 <= k < r.deep_view().len()
            ==> discovered.deep_view().contains(#[trigger] r.deep_view()[k]),
        forall|k: int, l: int| 0 <= k < l < r.deep_view().len()
            ==> r.deep_view()[k] != r.deep_view()[l],
{
    let ghost dv = discovered.deep_view();
    let mut r: Vec<Vec<char>> = Vec::new();
    let mut i: usize = 0;
    while i < discovered.len()
        invariant
            0 <= i <= dv.len(),
            dv == discovered.deep_view(),
            dv.len() == discovered@.len(),
            forall|q: Seq<char>| #[trigger] r.deep_view().contains(q)
                <==> (dv.subrange(0, i as int).contains(q) && !scope@.contains(q)),
            forall|k: int, l: int| 0 <= k < l < r.deep_view().len()
                ==> r.deep_view()[k] != r.deep_view()[l],
        decreases discovered.len() - i,
    {
        let ghost upto = dv.subrange(0, i as int + 1);
        let ghost before = r.deep_view();
        if !scope.contains(&discovered[i]) && !contains_path(&r, &discovered[i]) {
            let copy = discovered[i].clone();
            r.push(copy);
            proof {
                assert(r.deep_view() =~~= before.push(dv[i as int]));
                assert forall|k: int, l: int| 0 <= k < l < r.deep_view().len()
                    implies r.deep_view()[k] != r.deep_view()[l] by {
                    if l == before.len() {
                        assert(!before.contains(dv[i as int]));
                        assert(before[k] != dv[i as int]);
                    }
                }
            }
        }
        proof {
            assert forall|q: Seq<char>| #[trigger] r.deep_view().contains(q)
                implies (upto.contains(q) && !scope@.contains(q)) by {
                if before.contains(q) {
                    let k = choose|k: int| 0 <= k < i
                        && #[trigger] dv.subrange(0, i as int)[k] == q;
                    assert(upto[k] == q);
                } else {
                    let k = choose|k: int| 0 <= k < r.deep_view().len()
                        && r.deep_view()[k] == q;
                    assert(q == dv[i as int]);
                    assert(upto[i as int] == q);
                }
            }
            assert forall|q: Seq<char>| upto.contains(q) && !scope@.contains(q)
                implies #[trigger] r.deep_view().contains(q) by {
                let k = choose|k: int| 0 <= k <= i && #[trigger] upto[k] == q;
                if k < i {
                    assert(dv.subrange(0, i as int)[k] == q);
                    assert(before.contains(q));
                    let m = choose|m: int| 0 <= m < before.len() && before[m] == q;
                    assert(r.deep_view().contains(q)) by {
                        assert(r.deep_view()[m] == q);
                    }
                } else {
                    assert(q == dv[i as int]);
                    if before.contains(q) {
                        let m = choose|m: int| 0 <= m < before.len() && before[m] == q;
                        assert(r.deep_view()[m] == q);
                    } else {
                        assert(r.deep_view()[r.deep_view().len() - 1] == q);
                    }
                }
            }
        }
        i = i + 1;
    }
    proof {
        assert(dv.subrange(0, i as int) =~= dv);
        assert forall|k: int| 0 <= k < r.deep_view().len()
            implies dv.contains(#[trigger] r.deep_view()[k]) by {
            assert(r.deep_view().contains(r.deep_view()[k]));
        }
    }
    r
}

/// The in-scope known paths that this discovery pass did not find
/// (Obsolete = Scope − Discovered).
pub fn obsolete_paths(discovered: &Vec<Vec<char>>, scope: &Registry) -> (r: Vec<Vec<char>>)
    requires
        scope.wf(),
    ensures
        forall|q: Seq<char>| #[trigger] r.deep_view().contains(q)
            <==> (scope@.contains(q) && !discovered.deep_view().contains(q)),
        forall|k: int| 0 <= k < r.deep_view().len()
            ==> scope@.contains(#[trigger] r.deep_view()[k]),
        forall|k: int, l: int| 0 <= k < l < r.deep_view().len()
            ==> r.deep_view()[k] != r.deep_view()[l],
{
    let mut r: Vec<Vec<char>> = Vec::new();
    let mut i: usize = 0;
    let n = scope.len();
    while i < n
        invariant
            0 <= i <= n,
            n == scope@.len(),
            scope.wf(),
            forall|q: Seq<char>| #[trigger] r.deep_view().contains(q)
                <==> (scope@.subrange(0, i as int).contains(q)
                    && !discovered.deep_view().contains(q)),
            forall|k: int, l: int| 0 <= k < l < r.deep_view().len()
                ==> r.deep_view()[k] != r.deep_view()[l],
        decreases n - i,
    {
        let ghost sv = scope@;
        let ghost upto = sv.subrange(0, i as int + 1);
        let ghost before = r.deep_view();
        let entry = scope.entry_at(i);
        if !contains_path(discovered, entry) {
            let copy = entry.clone();
            r.push(copy);
            proof {
                assert(r.deep_view() =~~= before.push(sv[i as int]));
                assert forall|k: int, l: int| 0 <= k < l < r.deep_view().len()
                    implies r.deep_view()[k] != r.deep_view()[l] by {
                    if l == before.len() {
                        // an equal earlier element would mean the scope
                        // repeats a path, which well-formedness rules out
                        if before[k] == sv[i as int] {
                            assert(before.contains(before[k]));
                            let m = choose|m: int| 0 <= m < i
                                && #[trigger] sv.subrange(0, i as int)[m] == before[k];
                            assert(sv[m] == sv[i as int]);
                        }
                    }
                }
            }
        }
        proof {
            assert forall|q: Seq<char>| #[trigger] r.deep_view().contains(q)
                implies (upto.contains(q) && !discovered.deep_view().contains(q)) by {
                if before.contains(q) {
                    let k = choose|k: int| 0 <= k < i
                        && #[trigger] sv.subrange(0, i as int)[k] == q;
                    assert(upto[k] == q);
                } else {
                    let k = choose|k: int| 0 <= k < r.deep_view().len()
                        && r.deep_view()[k] == q;
                    assert(q == sv[i as int]);
                    assert(upto[i as int] == q);
                }
            }
            assert forall|q: Seq<char>| upto.contains(q)
                && !discovered.deep_view().contains(q)
                implies #[trigger] r.deep_view().contains(q) by {
                let k = choose|k: int| 0 <= k <= i && #[trigger] upto[k] == q;
                if k < i {
                    assert(sv.subrange(0, i as int)[k] == q);
                    assert(before.contains(q));
                    let m = choose|m: int| 0 <= m < before.len() && before[m] == q;
                    assert(r.deep_view()[m] == q);
                } else {
                    assert(q == sv[i as int]);
                    assert(r.deep_view()[r.deep_view().len() - 1] == q);
                }
            }
        }
        i = i + 1;
    }
    proof {
        assert(scope@.subrange(0, i as int) =~= scope@);
        assert forall|k: int| 0 <= k < r.deep_view().len()
            implies scope@.contains(#[trigger] r.deep_view()[k]) by {
            assert(r.deep_view().contains(r.deep_view()[k]));
        }
    }
    r
}

/// Apply the add/prune edits to the known registry.  With `add` set every
/// new path is inserted (keyed by exact path equality across the whole
/// registry); with `prune` set every obsolete path is removed; with
/// neither flag set the registry is left exactly as it was.
pub fn apply_edits(
    known: &mut Registry,
    new: &Vec<Vec<char>>,
    obsolete: &Vec<Vec<char>>,
    add: bool,
    prune: bool,
)
    requires
        old(known).wf(),
        forall|k: int| 0 <= k < new.deep_view().len()
            ==> valid_entry(#[trigger] new.deep_view()[k]),
    ensures
        final(known).wf(),
        forall|q: Seq<char>| #[trigger] final(known)@.contains(q)
            <==> ((old(known)@.contains(q) || (add && new.deep_view().contains(q)))
                && !(prune && obsolete.deep_view().contains(q))),
        !add && !prune ==> final(known)@ == old(known)@,
{
    let ghost start = known@;
    let ghost nv = new.deep_view();
    let ghost ov = obsolete.deep_view();
    if add {
        let mut i: usize = 0;
        while i < new.len()
            invariant
                0 <= i <= nv.len(),
                nv == new.deep_view(),
                nv.len() == new@.len(),
                forall|k: int| 0 <= k < nv.len() ==> valid_entry(#[trigger] nv[k]),
                known.wf(),
                forall|q: Seq<char>| #[trigger] known@.contains(q)
                    <==> (start.contains(q) || nv.subrange(0, i as int).contains(q)),
            decreases new.len() - i,
        {
            let ghost upto = nv.subrange(0, i as int + 1);
            let ghost before = known@;
            let copy = new[i].clone();
            proof {
                lemma_deep_view_paths(*new);
                assert(copy@ == nv[i as int]);
            }
            assert(valid_entry(copy@));
            known.insert(copy);
            proof {
                assert forall|q: Seq<char>| #[trigger] known@.contains(q)
                    implies (start.contains(q) || upto.contains(q)) by {
                    if q == nv[i as int] {
                        assert(upto[i as int] == q);
                    } else if !start.contains(q) {
                        let k = choose|k: int| 0 <= k < i
                            && #[trigger] nv.subrange(0, i as int)[k] == q;
                        assert(upto[k] == q);
                    }
                }
                assert forall|q: Seq<char>| start.contains(q) || upto.contains(q)
                    implies #[trigger] known@.contains(q) by {
                    if !start.contains(q) {
                        let k = choose|k: int| 0 <= k <= i && #[trigger] upto[k] == q;
                        if k < i {
                            assert(nv.subrange(0, i as int)[k] == q);
                            assert(before.contains(q));
                        }
                    }
                }
            }
            i = i + 1;
        }
        proof {
            assert(nv.subrange(0, i as int) =~= nv);
        }
    }
    let ghost mid = known@;
    if prune {
        let mut i: usize = 0;
        while i < obsolete.len()
            invariant
                0 <= i <= ov.len(),
                ov == obsolete.deep_view(),
                ov.len() == obsolete@.len(),
                known.wf(),
                forall|q: Seq<char>| #[trigger] known@.contains(q)
                    <==> (mid.contains(q) && !ov.subrange(0, i as int).contains(q)),
            decreases obsolete.len() - i,
        {
            let ghost upto = ov.subrange(0, i as int + 1);
            let ghost before = known@;
            known.remove(&obsolete[i]);
            proof {
                assert forall|q: Seq<char>| #[trigger] known@.contains(q)
                    implies (mid.contains(q) && !upto.contains(q)) by {
                    assert(q != ov[i as int]);
                    assert(before.contains(q));
                    if upto.contains(q) {
                        let k = choose|k: int| 0 <= k <= i && #[trigger] upto[k] == q;
                        assert(k < i);
                        assert(ov.subrange(0, i as int)[k] == q);
                    }
                }
                assert forall|q: Seq<char>| mid.contains(q) && !upto.contains(q)
                    implies #[trigger] known@.contains(q) by {
                    assert(q != ov[i as int]) by {
                        assert(upto[i as int] == ov[i as int]);
                    }
                    assert(!ov.subrange(0, i as int).contains(q)) by {
                        if ov.subrange(0, i as int).contains(q) {
                            let k = choose|k: int| 0 <= k < i
                                && #[trigger] ov.subrange(0, i as int)[k] == q;
                            assert(upto[k] == q);
                        }
                    }
                    assert(before.contains(q));
                }
            }
            i = i + 1;
        }
        proof {
            assert(ov.subrange(0, i as int) =~= ov);
        }
    }
}

/// Law: when a discovery pass runs with both add and prune, the updated
/// registry is exactly (previous known − scope) ∪ discovered — entries
/// outside the working-directory scope are untouched, and inside it the
/// discovered set replaces the old contents.
pub proof fn lemma_discovery_reconciliation(
    known: Seq<Seq<char>>,
    scope: Seq<Seq<char>>,
    discovered: Seq<Seq<char>>,
    new: Seq<Seq<char>>,
    obsolete: Seq<Seq<char>>,
    updated: Seq<Seq<char>>,
)
    requires
        forall|q: Seq<char>| #[trigger] scope.contains(q) ==> known.contains(q),
        forall|q: Seq<char>| #[trigger] new.contains(q)
            <==> (discovered.contains(q) && !scope.contains(q)),
        forall|q: Seq<char>| #[trigger] obsolete.contains(q)
            <==> (scope.contains(q) && !discovered.contains(q)),
        forall|q: Seq<char>| #[trigger] updated.contains(q)
            <==> ((known.contains(q) || new.contains(q)) && !obsolete.contains(q)),
    ensures
        forall|q: Seq<char>| #[trigger] updated.contains(q)
            <==> ((known.contains(q) && !scope.contains(q)) || discovered.contains(q)),
{
}

} // verus!
