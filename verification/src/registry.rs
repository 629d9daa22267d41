//! The known registry: a duplicate-free collection of repository root
//! paths, with the persistence format (one path per line) and the
//! working-directory scoping used by every command.

use vstd::prelude::*;

use crate::lines::chars_eq;
use crate::lines::has_prefix;
use crate::lines::lemma_deep_view_chars;
use crate::lines::lemma_deep_view_paths;
use crate::lines::lemma_lines_round_trip;
use crate::lines::serialize_lines;
use crate::lines::spec_lines;
use crate::lines::spec_serialize;
use crate::lines::split_lines;
use crate::lines::starts_with;
use crate::lines::valid_entry;

verus! {

broadcast use lemma_deep_view_chars, lemma_deep_view_paths;

/// The set of repository roots the tool knows about.  Membership is by
/// exact path equality; no two entries are ever equal.
pub struct Registry {
    entries: Vec<Vec<char>>,
}

impl View for Registry {
    type V = Seq<Seq<char>>;

    closed spec fn view(&self) -> Seq<Seq<char>> {
        self.entries.deep_view()
    }
}

impl Registry {
    /// Every entry is a usable path (non-empty, newline-free) and no entry
    /// repeats.
    pub open spec fn wf(self) -> bool {
        &&& forall|i: int| 0 <= i < self@.len() ==> valid_entry(#[trigger] self@[i])
        &&& forall|i: int, j: int| 0 <= i < j < self@.len() ==> self@[i] != self@[j]
    }

    pub fn new() -> (r: Registry)
        ensures
            r@ == Seq::<Seq<char>>::empty(),
            r.wf(),
    {
        Registry { entries: Vec::new() }
    }

    pub fn len(&self) -> (n: usize)
        ensures
            n == self@.len(),
    {
        self.entries.len()
    }

    /// The path stored at position `i`.
    pub fn entry_at(&self, i: usize) -> (p: &Vec<char>)
        requires
            i < self@.len(),
        ensures
            p@ == self@[i as int],
    {
        &self.entries[i]
    }

    /// Is `p` a known path?
    pub fn contains(&self, p: &Vec<char>) -> (r: bool)
        ensures
            r == self@.contains(p@),
    {
        let mut i: usize = 0;
        while i < self.entries.len()
            invariant
                0 <= i <= self@.len(),
                self@.len() == self.entries@.len(),
                forall|k: int| 0 <= k < i ==> self@[k] != p@,
            decreases self.entries.len() - i,
        {
            if chars_eq(&self.entries[i], p) {
                assert(self@[i as int] == p@);
                return true;
            }
            i = i + 1;
        }
        false
    }

    /// Insert `p` unless an equal path is already present.  Returns whether
    /// the registry changed.
    pub fn insert(&mut self, p: Vec<char>) -> (added: bool)
        requires
            old(self).wf(),
            valid_entry(p@),
        ensures
            final(self).wf(),
            added == !old(self)@.contains(p@),
            added ==> final(self)@ == old(self)@.push(p@),
            !added ==> final(self)@ == old(self)@,
            forall|q: Seq<char>| #[trigger] final(self)@.contains(q)
                <==> (old(self)@.contains(q) || q == p@),
    {
        if self.contains(&p) {
            return false;
        }
        let ghost before = self@;
        self.entries.push(p);
        proof {
            assert(self@ =~~= before.push(p@));
            assert forall|q: Seq<char>| #[trigger] self@.contains(q)
                implies (before.contains(q) || q == p@) by {
                let k = choose|k: int| 0 <= k < self@.len() && self@[k] == q;
                if k < before.len() {
                    assert(before[k] == q);
                }
            }
            assert(self@.contains(p@)) by {
                assert(self@[before.len() as int] == p@);
            }
            assert forall|q: Seq<char>| before.contains(q)
                implies #[trigger] self@.contains(q) by {
                let k = choose|k: int| 0 <= k < before.len() && before[k] == q;
                assert(self@[k] == q);
            }
        }
        true
    }

    /// Remove the entry equal to `p`, if any.  Returns whether the registry
    /// changed.
    pub fn remove(&mut self, p: &Vec<char>) -> (removed: bool)
        requires
            old(self).wf(),
        ensures
            final(self).wf(),
            removed == old(self)@.contains(p@),
            !removed ==> final(self)@ == old(self)@,
            !final(self)@.contains(p@),
            forall|q: Seq<char>| q != p@
                ==> (#[trigger] final(self)@.contains(q) == old(self)@.contains(q)),
    {
        let ghost before = self@;
        let mut i: usize = 0;
        while i < self.entries.len()
            invariant
                0 <= i <= self@.len(),
                self@ == before,
                self@.len() == self.entries@.len(),
                old(self).wf(),
                before == old(self)@,
                forall|k: int| 0 <= k < i ==> self@[k] != p@,
            decreases self.entries.len() - i,
        {
            if chars_eq(&self.entries[i], p) {
                assert(self@[i as int] == p@);
                self.entries.remove(i);
                proof {
                    let ii = i as int;
                    assert(self@ =~~= before.subrange(0, ii)
                        + before.subrange(ii + 1, before.len() as int));
                    assert(forall|k: int| 0 <= k < ii ==> self@[k] == before[k]);
                    assert(forall|k: int| ii <= k < self@.len() ==> self@[k] == before[k + 1]);
                    assert forall|k: int, l: int| 0 <= k < l < self@.len()
                        implies self@[k] != self@[l] by {
                        if k < ii && l < ii {
                            assert(before[k] != before[l]);
                        } else if k < ii {
                            assert(before[k] != before[l + 1]);
                        } else {
                            assert(before[k + 1] != before[l + 1]);
                        }
                    }
                    assert forall|q: Seq<char>| #[trigger] self@.contains(q) && q != p@
                        implies before.contains(q) by {
                        let k = choose|k: int| 0 <= k < self@.len() && self@[k] == q;
                        if k < ii {
                            assert(before[k] == q);
                        } else {
                            assert(before[k + 1] == q);
                        }
                    }
                    assert forall|q: Seq<char>| before.contains(q) && q != p@
                        implies #[trigger] self@.contains(q) by {
                        let k = choose|k: int| 0 <= k < before.len() && before[k] == q;
                        if k < ii {
                            assert(self@[k] == q);
                        } else {
                            assert(k != ii);
                            assert(self@[k - 1] == q);
                        }
                    }
                    assert(!self@.contains(p@)) by {
                        if self@.contains(p@) {
                            let k = choose|k: int| 0 <= k < self@.len() && self@[k] == p@;
                            if k < ii {
                                assert(before[k] == p@);
                                assert(before[k] != before[ii]);
                            } else {
                                assert(before[k + 1] == p@);
                                assert(before[ii] != before[k + 1]);
                            }
                        }
                    }
                    assert(before.contains(p@)) by {
                        assert(before[ii] == p@);
                    }
                }
                return true;
            }
            i = i + 1;
        }
        assert(!self@.contains(p@));
        false
    }

    /// The sub-registry of paths that start with `prefix`: the
    /// working-directory scope when `prefix` is the working directory.
    pub fn scope(&self, prefix: &Vec<char>) -> (r: Registry)
        requires
            self.wf(),
        ensures
            r.wf(),
            r@.len() <= self@.len(),
            forall|q: Seq<char>| #[trigger] r@.contains(q)
                <==> (self@.contains(q) && has_prefix(q, prefix@)),
    {
        let mut r = Registry::new();
        let mut i: usize = 0;
        while i < self.entries.len()
            invariant
                0 <= i <= self@.len(),
                self@.len() == self.entries@.len(),
                self.wf(),
                r.wf(),
                r@.len() <= i,
                forall|q: Seq<char>| #[trigger] r@.contains(q)
                    <==> (self@.subrange(0, i as int).contains(q) && has_prefix(q, prefix@)),
            decreases self.entries.len() - i,
        {
            let ghost upto = self@.subrange(0, i as int + 1);
            let entry = &self.entries[i];
            if starts_with(entry, prefix) {
                let copy = entry.clone();
                assert(copy@ == self@[i as int]);
                assert(valid_entry(copy@));
                let ghost before = r@;
                r.insert(copy);
                proof {
                    assert forall|q: Seq<char>| #[trigger] r@.contains(q)
                        implies (upto.contains(q) && has_prefix(q, prefix@)) by {
                        if q == self@[i as int] {
                            assert(upto[i as int] == q);
                        } else {
                            assert(before.contains(q));
                            let k = choose|k: int| 0 <= k < i
                                && #[trigger] self@.subrange(0, i as int)[k] == q;
                            assert(upto[k] == q);
                        }
                    }
                    assert forall|q: Seq<char>| upto.contains(q) && has_prefix(q, prefix@)
                        implies #[trigger] r@.contains(q) by {
                        let k = choose|k: int| 0 <= k <= i && #[trigger] upto[k] == q;
                        if k < i {
                            assert(self@.subrange(0, i as int)[k] == q);
                        }
                    }
                }
            } else {
                proof {
                    assert forall|q: Seq<char>| #[trigger] r@.contains(q)
                        implies (upto.contains(q) && has_prefix(q, prefix@)) by {
                        let k = choose|k: int| 0 <= k < i
                            && #[trigger] self@.subrange(0, i as int)[k] == q;
                        assert(upto[k] == q);
                    }
                    assert forall|q: Seq<char>| upto.contains(q) && has_prefix(q, prefix@)
                        implies #[trigger] r@.contains(q) by {
                        let k = choose|k: int| 0 <= k <= i && #[trigger] upto[k] == q;
                        assert(k != i) by {
                            assert(!has_prefix(self@[i as int], prefix@));
                        }
                        assert(self@.subrange(0, i as int)[k] == q);
                    }
                }
            }
            i = i + 1;
        }
        proof {
            assert(self@.subrange(0, i as int) =~= self@);
            assert forall|q: Seq<char>| #[trigger] r@.contains(q)
                implies (self@.contains(q) && has_prefix(q, prefix@)) by {
            }
        }
        r
    }

    /// The persisted form: every entry on its own line.
    pub fn serialize(&self) -> (r: Vec<char>)
        ensures
            r@ == spec_serialize(self@),
    {
        serialize_lines(&self.entries)
    }

    /// Load a registry from file content: one path per line, blank lines
    /// ignored, duplicate lines collapsed.
    pub fn parse(content: &Vec<char>) -> (r: Registry)
        ensures
            r.wf(),
            forall|q: Seq<char>| #[trigger] r@.contains(q) <==> spec_lines(content@).contains(q),
    {
        let lines = split_lines(content);
        let ghost ls = lines.deep_view();
        let mut r = Registry::new();
        let mut i: usize = 0;
        while i < lines.len()
            invariant
                0 <= i <= ls.len(),
                ls == lines.deep_view(),
                ls.len() == lines@.len(),
                ls == spec_lines(content@),
                forall|k: int| 0 <= k < ls.len() ==> valid_entry(#[trigger] ls[k]),
                r.wf(),
                forall|q: Seq<char>| #[trigger] r@.contains(q)
                    <==> ls.subrange(0, i as int).contains(q),
            decreases lines.len() - i,
        {
            let line = lines[i].clone();
            assert(line@ == ls[i as int]);
            let ghost before = r@;
            r.insert(line);
            proof {
                let upto = ls.subrange(0, i as int + 1);
                assert forall|q: Seq<char>| #[trigger] r@.contains(q)
                    implies upto.contains(q) by {
                    if q == ls[i as int] {
                        assert(upto[i as int] == q);
                    } else {
                        let k = choose|k: int| 0 <= k < i
                            && ls.subrange(0, i as int)[k] == q;
                        assert(upto[k] == q);
                    }
                }
                assert forall|q: Seq<char>| ls.subrange(0, i as int + 1).contains(q)
                    implies #[trigger] r@.contains(q) by {
                    let k = choose|k: int| 0 <= k <= i
                        && #[trigger] ls.subrange(0, i as int + 1)[k] == q;
                    if k < i {
                        assert(ls.subrange(0, i as int)[k] == q);
                    }
                }
            }
            i = i + 1;
        }
        proof {
            assert(ls.subrange(0, i as int) =~= ls);
        }
        r
    }
}

/// Load the known registry from the registry file's content.  A file that
/// does not exist (`None`) loads as an empty registry, not an error.
pub fn load_known_repositories(content: Option<&Vec<char>>) -> (r: Registry)
    ensures
        r.wf(),
        match content {
            Some(c) => forall|q: Seq<char>| #[trigger] r@.contains(q)
                <==> spec_lines(c@).contains(q),
            None => r@ == Seq::<Seq<char>>::empty(),
        },
{
    match content {
        Some(c) => Registry::parse(c),
        None => Registry::new(),
    }
}

/// Law: persisting a registry and loading the result yields exactly the
/// original set of paths — no entry is lost, invented, or duplicated —
/// even when the written buffer held the same path twice.
pub proof fn lemma_registry_round_trip(entries: Seq<Seq<char>>)
    requires
        forall|k: int| 0 <= k < entries.len() ==> valid_entry(#[trigger] entries[k]),
    ensures
        spec_lines(spec_serialize(entries)).to_set() == entries.to_set(),
{
    lemma_lines_round_trip(entries);
}

} // verus!
