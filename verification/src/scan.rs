//! Discovery of repository roots.
//!
//! A directory whose listing holds a version-control metadata directory
//! (`.git`) is a repository root and is never searched further; otherwise
//! its subdirectories are traversed, except the ones named by an exclusion
//! marker file (`.reposcanignore`) found in the same listing.
//!
//! The [`Scanner`] keeps the traversal worklist: the caller repeatedly asks
//! for the next directory to read, performs the read, and hands the listing
//! back.  Every decision — root classification, exclusion filtering, which
//! children are enqueued — is made and specified here.

use vstd::prelude::*;

use crate::lines::chars_eq;
use crate::lines::contains_path;
use crate::lines::lemma_deep_view_chars;
use crate::lines::lemma_deep_view_paths;
use crate::lines::spec_lines;
use crate::lines::split_lines;

verus! {

broadcast use lemma_deep_view_chars, lemma_deep_view_paths;

/// The name of the version-control metadata directory that marks a
/// repository root.
pub open spec fn git_dir_name() -> Seq<char> {
    seq!['.', 'g', 'i', 't']
}

/// The name of the per-directory exclusion marker file.
pub open spec fn marker_name() -> Seq<char> {
    seq!['.', 'r', 'e', 'p', 'o', 's', 'c', 'a', 'n', 'i', 'g', 'n', 'o', 'r', 'e']
}

pub fn git_dir_chars() -> (r: Vec<char>)
    ensures
        r@ == git_dir_name(),
{
    let r: Vec<char> = vec!['.', 'g', 'i', 't'];
    proof {
        assert(r@ =~= git_dir_name());
    }
    r
}

pub fn marker_chars() -> (r: Vec<char>)
    ensures
        r@ == marker_name(),
{
    let r: Vec<char> = vec![
        '.', 'r', 'e', 'p', 'o', 's', 'c', 'a', 'n', 'i', 'g', 'n', 'o', 'r', 'e',
    ];
    proof {
        assert(r@ =~= marker_name());
    }
    r
}

/// What kind of filesystem object a directory entry is.
#[derive(Clone, Copy, PartialEq, Eq, Structural, Debug)]
pub enum EntryKind {
    Directory,
    File,
    Other,
}

/// One entry of a directory listing, as the caller read it from disk.
pub struct DirEntry {
    pub name: Vec<char>,
    pub kind: EntryKind,
}

/// The listing belongs to a repository root: it holds a directory named
/// `.git`.
pub open spec fn spec_is_root(entries: Seq<DirEntry>) -> bool {
    exists|i: int|
        0 <= i < entries.len() && (#[trigger] entries[i].kind) == EntryKind::Directory
            && entries[i].name@ == git_dir_name()
}

/// Decide whether a directory listing marks the directory as a repository
/// root.
pub fn is_repository_root(entries: &Vec<DirEntry>) -> (r: bool)
    ensures
        r == spec_is_root(entries@),
{
    let git = git_dir_chars();
    let mut i: usize = 0;
    while i < entries.len()
        invariant
            0 <= i <= entries@.len(),
            git@ == git_dir_name(),
            forall|k: int| 0 <= k < i
                ==> !((#[trigger] entries@[k].kind) == EntryKind::Directory
                    && entries@[k].name@ == git_dir_name()),
        decreases entries.len() - i,
    {
        let e = &entries[i];
        if matches!(e.kind, EntryKind::Directory) && chars_eq(&e.name, &git) {
            return true;
        }
        i = i + 1;
    }
    false
}

/// The listing holds an exclusion marker file.
pub open spec fn spec_has_marker(entries: Seq<DirEntry>) -> bool {
    exists|i: int|
        0 <= i < entries.len() && (#[trigger] entries[i].kind) == EntryKind::File
            && entries[i].name@ == marker_name()
}

/// Decide whether the listing holds an exclusion marker file, so that the
/// caller knows to read its contents before the traversal decision.
pub fn has_exclusion_marker(entries: &Vec<DirEntry>) -> (r: bool)
    ensures
        r == spec_has_marker(entries@),
{
    let marker = marker_chars();
    let mut i: usize = 0;
    while i < entries.len()
        invariant
            0 <= i <= entries@.len(),
            marker@ == marker_name(),
            forall|k: int| 0 <= k < i
                ==> !((#[trigger] entries@[k].kind) == EntryKind::File
                    && entries@[k].name@ == marker_name()),
        decreases entries.len() - i,
    {
        let e = &entries[i];
        if matches!(e.kind, EntryKind::File) && chars_eq(&e.name, &marker) {
            return true;
        }
        i = i + 1;
    }
    false
}

/// A directory's child is traversed when it is a directory and the
/// exclusion marker does not name it.
pub open spec fn keep_entry(e: DirEntry, excluded: Seq<Seq<char>>) -> bool {
    e.kind == EntryKind::Directory && !excluded.contains(e.name@)
}

/// An absolute child path: the directory path, a separator, the child name.
pub open spec fn spec_join(dir: Seq<char>, name: Seq<char>) -> Seq<char> {
    dir + seq!['/'] + name
}

pub fn join_path(dir: &Vec<char>, name: &Vec<char>) -> (r: Vec<char>)
    ensures
        r@ == spec_join(dir@, name@),
{
    let mut r = dir.clone();
    r.push('/');
    let mut i: usize = 0;
    while i < name.len()
        invariant
            0 <= i <= name@.len(),
            r@ == dir@ + seq!['/'] + name@.subrange(0, i as int),
        decreases name.len() - i,
    {
        let c = name[i];
        r.push(c);
        proof {
            assert(r@ =~= dir@ + seq!['/'] + name@.subrange(0, i as int + 1));
        }
        i = i + 1;
    }
    proof {
        assert(name@.subrange(0, i as int) =~= name@);
    }
    r
}

/// The absolute paths of the children that the traversal descends into,
/// in listing order.
pub open spec fn spec_child_paths(
    dir: Seq<char>,
    entries: Seq<DirEntry>,
    excluded: Seq<Seq<char>>,
) -> Seq<Seq<char>>
    decreases entries.len(),
{
    if entries.len() == 0 {
        Seq::empty()
    } else {
        let rest = spec_child_paths(dir, entries.drop_last(), excluded);
        if keep_entry(entries.last(), excluded) {
            rest.push(spec_join(dir, entries.last().name@))
        } else {
            rest
        }
    }
}

/// Joining one directory path with two different names gives two
/// different paths.
pub proof fn lemma_join_injective(dir: Seq<char>, a: Seq<char>, b: Seq<char>)
    requires
        a != b,
    ensures
        spec_join(dir, a) != spec_join(dir, b),
{
    if spec_join(dir, a) == spec_join(dir, b) {
        let ja = spec_join(dir, a);
        let jb = spec_join(dir, b);
        assert(ja.len() == dir.len() + 1 + a.len());
        assert(jb.len() == dir.len() + 1 + b.len());
        assert(a.len() == b.len());
        assert(a =~= b) by {
            assert(forall|k: int| 0 <= k < a.len()
                ==> #[trigger] a[k] == ja[dir.len() + 1 + k] && b[k] == jb[dir.len() + 1 + k]);
        }
    }
}

/// Law: a child named by the exclusion marker is never enqueued for
/// traversal, so nothing under it can ever be scanned.
pub proof fn lemma_excluded_child_not_enqueued(
    dir: Seq<char>,
    entries: Seq<DirEntry>,
    excluded: Seq<Seq<char>>,
    x: Seq<char>,
)
    requires
        excluded.contains(x),
    ensures
        !spec_child_paths(dir, entries, excluded).contains(spec_join(dir, x)),
    decreases entries.len(),
{
    if entries.len() == 0 {
    } else {
        let rest = spec_child_paths(dir, entries.drop_last(), excluded);
        lemma_excluded_child_not_enqueued(dir, entries.drop_last(), excluded, x);
        if keep_entry(entries.last(), excluded) {
            assert(entries.last().name@ != x);
            lemma_join_injective(dir, entries.last().name@, x);
            let whole = rest.push(spec_join(dir, entries.last().name@));
            assert forall|k: int| 0 <= k < whole.len()
                implies #[trigger] whole[k] != spec_join(dir, x) by {
                if k < rest.len() {
                    assert(!rest.contains(spec_join(dir, x)));
                    assert(rest[k] != spec_join(dir, x));
                }
            }
            assert(!whole.contains(spec_join(dir, x)));
        }
    }
}

/// Compute the child paths the traversal must visit.
pub fn child_paths(
    dir: &Vec<char>,
    entries: &Vec<DirEntry>,
    excluded: &Vec<Vec<char>>,
) -> (r: Vec<Vec<char>>)
    ensures
        r.deep_view() == spec_child_paths(dir@, entries@, excluded.deep_view()),
{
    let ghost ex = excluded.deep_view();
    let mut r: Vec<Vec<char>> = Vec::new();
    let mut i: usize = 0;
    while i < entries.len()
        invariant
            0 <= i <= entries@.len(),
            ex == excluded.deep_view(),
            r.deep_view() == spec_child_paths(dir@, entries@.subrange(0, i as int), ex),
        decreases entries.len() - i,
    {
        let ghost before = r.deep_view();
        let e = &entries[i];
        if matches!(e.kind, EntryKind::Directory) && !contains_path(excluded, &e.name) {
            let child = join_path(dir, &e.name);
            r.push(child);
            proof {
                assert(r.deep_view() =~~= before.push(spec_join(dir@, entries@[i as int].name@)));
            }
        } else {
            assert(!keep_entry(entries@[i as int], ex));
        }
        proof {
            let upto = entries@.subrange(0, i as int + 1);
            assert(upto.drop_last() =~= entries@.subrange(0, i as int));
            assert(upto.last() == entries@[i as int]);
            assert(r.deep_view() == spec_child_paths(dir@, upto, ex));
        }
        i = i + 1;
    }
    proof {
        assert(entries@.subrange(0, i as int) =~= entries@);
    }
    r
}

/// The traversal worklist.  `pending` holds directories that still must be
/// read; `found` the repository roots seen so far.
pub struct Scanner {
    pending: Vec<Vec<char>>,
    found: Vec<Vec<char>>,
}

impl Scanner {
    pub closed spec fn pending(self) -> Seq<Seq<char>> {
        self.pending.deep_view()
    }

    pub closed spec fn found(self) -> Seq<Seq<char>> {
        self.found.deep_view()
    }

    /// A scan of the tree rooted at `root` starts with just `root` to
    /// visit and nothing found.
    pub fn new(root: Vec<char>) -> (s: Scanner)
        ensures
            s.pending() == seq![root@],
            s.found() == Seq::<Seq<char>>::empty(),
    {
        let mut pending: Vec<Vec<char>> = Vec::new();
        pending.push(root);
        let s = Scanner { pending, found: Vec::new() };
        proof {
            assert(s.pending() =~~= seq![s.pending[0]@]);
            assert(s.found() =~~= Seq::<Seq<char>>::empty());
        }
        s
    }

    /// The next directory the caller must read, if any.
    pub fn next_directory(&mut self) -> (r: Option<Vec<char>>)
        ensures
            final(self).found() == old(self).found(),
            old(self).pending().len() == 0 ==> r is None
                && final(self).pending() == old(self).pending(),
            old(self).pending().len() > 0 ==> match r {
                Some(p) => p@ == old(self).pending().last()
                    && final(self).pending() == old(self).pending().drop_last(),
                None => false,
            },
    {
        let r = self.pending.pop();
        proof {
            if old(self).pending().len() > 0 {
                assert(final(self).pending() =~~= old(self).pending().drop_last());
            }
        }
        r
    }

    /// Record the listing of a directory handed out by `next_directory`.
    ///
    /// A listing that marks a repository root adds the directory to the
    /// results and enqueues nothing — a root is never searched for nested
    /// repositories.  Any other listing enqueues exactly the non-excluded
    /// child directories.
    pub fn visit(
        &mut self,
        dir: Vec<char>,
        entries: &Vec<DirEntry>,
        excluded: &Vec<Vec<char>>,
    )
        ensures
            spec_is_root(entries@) ==> final(self).found() == old(self).found().push(dir@)
                && final(self).pending() == old(self).pending(),
            !spec_is_root(entries@) ==> final(self).found() == old(self).found()
                && final(self).pending() == old(self).pending()
                    + spec_child_paths(dir@, entries@, excluded.deep_view()),
    {
        if is_repository_root(entries) {
            let ghost before = self.found.deep_view();
            self.found.push(dir);
            proof {
                assert(self.found.deep_view() =~~= before.push(dir@));
            }
        } else {
            let children = child_paths(&dir, entries, excluded);
            let ghost before = self.pending.deep_view();
            let ghost cs = children.deep_view();
            let mut i: usize = 0;
            let n = children.len();
            proof {
                assert(before + cs.subrange(0, 0) =~= before);
            }
            while i < n
                invariant
                    0 <= i <= n,
                    n == cs.len(),
                    children.deep_view() == cs,
                    children@.len() == cs.len(),
                    self.pending.deep_view() == before + cs.subrange(0, i as int),
                    self.found == old(self).found,
                decreases n - i,
            {
                let ghost pend = self.pending.deep_view();
                let child = children[i].clone();
                proof {
                    assert(child@ == cs[i as int]);
                }
                self.pending.push(child);
                proof {
                    assert(self.pending.deep_view() =~~= pend.push(cs[i as int]));
                    assert(self.pending.deep_view() =~= before + cs.subrange(0, i as int + 1));
                }
                i = i + 1;
            }
            proof {
                assert(cs.subrange(0, i as int) =~= cs);
            }
        }
    }

    /// Are there directories left to visit?
    pub fn done(&self) -> (r: bool)
        ensures
            r == (self.pending().len() == 0),
    {
        self.pending.len() == 0
    }

    /// Hand out the repository roots found by the finished scan.
    pub fn into_found(self) -> (r: Vec<Vec<char>>)
        ensures
            r.deep_view() == self.found(),
    {
        self.found
    }
}

/// An in-memory directory tree: the reference model of what a scan walks.
/// A file carries its content so that exclusion markers can be modelled.
pub enum FsTree {
    Directory(Vec<FsEntry>),
    File(Vec<char>),
}

/// A named entry of a model directory.
pub struct FsEntry {
    pub name: Vec<char>,
    pub tree: FsTree,
}

/// The directory with these children is a repository root.
pub open spec fn spec_tree_is_root(children: Seq<FsEntry>) -> bool {
    exists|i: int|
        0 <= i < children.len() && (#[trigger] children[i].tree) is Directory
            && children[i].name@ == git_dir_name()
}

/// The content of the exclusion marker among these children, if one
/// exists (a later marker entry shadows an earlier one).
pub open spec fn spec_marker_content(children: Seq<FsEntry>) -> Option<Seq<char>>
    decreases children.len(),
{
    if children.len() == 0 {
        None
    } else {
        let e = children.last();
        if e.tree is File && e.name@ == marker_name() {
            match e.tree {
                FsTree::File(c) => Some(c@),
                FsTree::Directory(_) => spec_marker_content(children.drop_last()),
            }
        } else {
            spec_marker_content(children.drop_last())
        }
    }
}

/// The names the exclusion marker removes from this directory's traversal.
pub open spec fn spec_exclusions(children: Seq<FsEntry>) -> Seq<Seq<char>> {
    match spec_marker_content(children) {
        Option::None => Seq::empty(),
        Option::Some(c) => spec_lines(c),
    }
}

/// A model child is traversed when it is a directory the marker does not
/// name.
pub open spec fn spec_tree_keep(e: FsEntry, excluded: Seq<Seq<char>>) -> bool {
    e.tree is Directory && !excluded.contains(e.name@)
}

/// The repository roots found under a tree, as component paths relative to
/// the tree itself: a root containing `.git` yields the single empty path;
/// any other directory yields the results of its traversed children, each
/// prefixed with the child's name.
pub open spec fn spec_scan(t: FsTree) -> Seq<Seq<Seq<char>>>
    decreases t, 0int,
{
    match t {
        FsTree::File(_) => Seq::empty(),
        FsTree::Directory(children) => {
            if spec_tree_is_root(children@) {
                seq![Seq::<Seq<char>>::empty()]
            } else {
                spec_scan_children(children@, spec_exclusions(children@))
            }
        },
    }
}

/// The concatenated scan results of the traversed children among `s`.
pub open spec fn spec_scan_children(s: Seq<FsEntry>, excluded: Seq<Seq<char>>) -> Seq<
    Seq<Seq<char>>,
>
    decreases s, s.len(),
{
    if s.len() == 0 {
        Seq::empty()
    } else {
        let rest = spec_scan_children(s.drop_last(), excluded);
        let e = s.last();
        if spec_tree_keep(e, excluded) {
            rest + spec_scan(e.tree).map_values(|p: Seq<Seq<char>>| seq![e.name@] + p)
        } else {
            rest
        }
    }
}

/// Decide whether a model directory is a repository root.
pub fn tree_is_root(children: &Vec<FsEntry>) -> (r: bool)
    ensures
        r == spec_tree_is_root(children@),
{
    let git = git_dir_chars();
    let mut i: usize = 0;
    while i < children.len()
        invariant
            0 <= i <= children@.len(),
            git@ == git_dir_name(),
            forall|k: int| 0 <= k < i
                ==> !((#[trigger] children@[k].tree) is Directory
                    && children@[k].name@ == git_dir_name()),
        decreases children.len() - i,
    {
        let e = &children[i];
        if matches!(&e.tree, FsTree::Directory(_)) && chars_eq(&e.name, &git) {
            return true;
        }
        i = i + 1;
    }
    false
}

/// The content of the exclusion marker of a model directory, if present.
pub fn tree_marker_content(children: &Vec<FsEntry>) -> (r: Option<Vec<char>>)
    ensures
        match r {
            Some(c) => spec_marker_content(children@) == Some(c@),
            None => spec_marker_content(children@) is None,
        },
{
    let marker = marker_chars();
    let mut found: Option<Vec<char>> = None;
    let mut i: usize = 0;
    proof {
        assert(children@.subrange(0, 0).len() == 0);
    }
    while i < children.len()
        invariant
            0 <= i <= children@.len(),
            marker@ == marker_name(),
            match found {
                Some(c) => spec_marker_content(children@.subrange(0, i as int)) == Some(c@),
                None => spec_marker_content(children@.subrange(0, i as int)) is None,
            },
        decreases children.len() - i,
    {
        let ghost upto = children@.subrange(0, i as int + 1);
        proof {
            assert(upto.drop_last() =~= children@.subrange(0, i as int));
            assert(upto.last() == children@[i as int]);
        }
        let e = &children[i];
        let mut matched = false;
        match &e.tree {
            FsTree::File(content) => {
                if chars_eq(&e.name, &marker) {
                    found = Some(content.clone());
                    matched = true;
                }
            },
            FsTree::Directory(_) => {
            },
        }
        proof {
            if !matched {
                assert(!(upto.last().tree is File && upto.last().name@ == marker_name()));
            }
        }
        i = i + 1;
    }
    proof {
        assert(children@.subrange(0, i as int) =~= children@);
    }
    found
}

/// Scan a model directory tree and return every repository root below it,
/// as component paths relative to the tree.
pub fn discover(t: &FsTree) -> (r: Vec<Vec<Vec<char>>>)
    ensures
        r.deep_view() == spec_scan(*t),
    decreases *t,
{
    broadcast use crate::lines::lemma_vec_deep_view_index;

    match t {
        FsTree::File(_) => {
            let r: Vec<Vec<Vec<char>>> = Vec::new();
            proof {
                assert(r.deep_view() =~~= spec_scan(*t));
            }
            r
        },
        FsTree::Directory(children) => {
            if tree_is_root(children) {
                let mut r: Vec<Vec<Vec<char>>> = Vec::new();
                let root_path: Vec<Vec<char>> = Vec::new();
                r.push(root_path);
                proof {
                    assert(r.deep_view() =~~= seq![Seq::<Seq<char>>::empty()]);
                }
                r
            } else {
                let excluded: Vec<Vec<char>> = match tree_marker_content(children) {
                    Some(c) => split_lines(&c),
                    None => Vec::new(),
                };
                let ghost ex = excluded.deep_view();
                proof {
                    assert(ex == spec_exclusions(children@));
                }
                let mut r: Vec<Vec<Vec<char>>> = Vec::new();
                let mut i: usize = 0;
                proof {
                    assert(r.deep_view() =~~= spec_scan_children(children@.subrange(0, 0), ex));
                }
                while i < children.len()
                    invariant
                        0 <= i <= children@.len(),
                        *t == FsTree::Directory(*children),
                        ex == excluded.deep_view(),
                        r.deep_view() == spec_scan_children(children@.subrange(0, i as int), ex),
                    decreases children.len() - i,
                {
                    broadcast use crate::lines::lemma_vec_deep_view_index;

                    let ghost upto = children@.subrange(0, i as int + 1);
                    proof {
                        assert(upto.drop_last() =~= children@.subrange(0, i as int));
                        assert(upto.last() == children@[i as int]);
                    }
                    let e = &children[i];
                    if matches!(&e.tree, FsTree::Directory(_)) && !contains_path(
                        &excluded,
                        &e.name,
                    ) {
                        proof {
                            broadcast use vstd::std_specs::vec::axiom_vec_decreases_to_view;
                            broadcast use vstd::seq::axiom_seq_index_decreases;

                            assert(*t == FsTree::Directory(*children));
                            assert(decreases_to!(*t => (*t)->Directory_0));
                            assert((*t)->Directory_0 == *children);
                            assert(decreases_to!(*children => children@));
                            assert(decreases_to!(children@ => children@[i as int]));
                            assert(decreases_to!(
                                children@[i as int] => children@[i as int].tree));
                        }
                        let sub = discover(&e.tree);
                        let ghost subv = sub.deep_view();
                        let ghost mapped = spec_scan(children@[i as int].tree).map_values(
                            |p: Seq<Seq<char>>| seq![children@[i as int].name@] + p,
                        );
                        let ghost base = r.deep_view();
                        let mut j: usize = 0;
                        proof {
                            assert(base + mapped.subrange(0, 0) =~= base);
                        }
                        while j < sub.len()
                            invariant
                                0 <= j <= sub@.len(),
                                subv == sub.deep_view(),
                                subv.len() == sub@.len(),
                                subv == spec_scan(children@[i as int].tree),
                                0 <= i < children@.len(),
                                mapped == spec_scan(children@[i as int].tree).map_values(
                                    |p: Seq<Seq<char>>| seq![children@[i as int].name@] + p,
                                ),
                                r.deep_view() == base + mapped.subrange(0, j as int),
                            decreases sub.len() - j,
                        {
                            broadcast use crate::lines::lemma_vec_deep_view_index;

                            let p = &sub[j];
                            let mut np: Vec<Vec<char>> = Vec::new();
                            np.push(children[i].name.clone());
                            proof {
                                assert(np.deep_view() =~~= seq![children@[i as int].name@]);
                            }
                            let mut k: usize = 0;
                            while k < p.len()
                                invariant
                                    0 <= k <= p@.len(),
                                    0 <= i < children@.len(),
                                    0 <= j < subv.len(),
                                    subv == sub.deep_view(),
                                    subv.len() == sub@.len(),
                                    p == sub@[j as int],
                                    np.deep_view() == seq![children@[i as int].name@]
                                        + subv[j as int].subrange(0, k as int),
                                decreases p.len() - k,
                            {
                                broadcast use crate::lines::lemma_vec_deep_view_index;

                                let ghost nbefore = np.deep_view();
                                let c = p[k].clone();
                                proof {
                                    assert(subv[j as int] == p.deep_view());
                                    assert(c@ == p.deep_view()[k as int]);
                                }
                                np.push(c);
                                proof {
                                    assert(np.deep_view() =~~= nbefore.push(
                                        subv[j as int][k as int],
                                    ));
                                    assert(np.deep_view() =~= seq![children@[i as int].name@]
                                        + subv[j as int].subrange(0, k as int + 1));
                                }
                                k = k + 1;
                            }
                            proof {
                                assert(subv[j as int].subrange(0, k as int) =~= subv[j as int]) by {
                                    assert(subv[j as int] == sub@[j as int].deep_view());
                                }
                                assert(np.deep_view() =~= seq![children@[i as int].name@]
                                    + subv[j as int]);
                            }
                            let ghost rbefore = r.deep_view();
                            r.push(np);
                            proof {
                                assert(mapped[j as int] == seq![children@[i as int].name@]
                                    + subv[j as int]);
                                assert(r.deep_view() =~~= rbefore.push(mapped[j as int]));
                                assert(r.deep_view() =~= base + mapped.subrange(0, j as int + 1));
                            }
                            j = j + 1;
                        }
                        proof {
                            assert(mapped.subrange(0, j as int) =~= mapped);
                            assert(spec_tree_keep(upto.last(), ex));
                            assert(r.deep_view() =~= spec_scan_children(upto, ex));
                        }
                    } else {
                        proof {
                            assert(!spec_tree_keep(upto.last(), ex));
                            assert(r.deep_view() == spec_scan_children(upto, ex));
                        }
                    }
                    i = i + 1;
                }
                proof {
                    assert(children@.subrange(0, i as int) =~= children@);
                }
                r
            }
        },
    }
}

/// The listing that reading a model directory yields: same names, the
/// kind taken from each entry's node.  Classifying the listing agrees
/// with classifying the model directory itself, entry by entry.
pub fn listing_of(children: &Vec<FsEntry>) -> (r: Vec<DirEntry>)
    ensures
        r@.len() == children@.len(),
        forall|i: int| 0 <= i < children@.len()
            ==> (#[trigger] r@[i]).name@ == children@[i].name@,
        forall|i: int| 0 <= i < children@.len()
            ==> ((#[trigger] r@[i]).kind == EntryKind::Directory
                <==> children@[i].tree is Directory),
        forall|i: int| 0 <= i < children@.len()
            ==> ((#[trigger] r@[i]).kind == EntryKind::File <==> children@[i].tree is File),
        spec_is_root(r@) == spec_tree_is_root(children@),
        forall|ex: Seq<Seq<char>>, i: int| 0 <= i < children@.len()
            ==> (#[trigger] keep_entry(r@[i], ex) <==> spec_tree_keep(children@[i], ex)),
{
    let mut r: Vec<DirEntry> = Vec::new();
    let mut i: usize = 0;
    while i < children.len()
        invariant
            0 <= i <= children@.len(),
            r@.len() == i,
            forall|k: int| 0 <= k < i ==> (#[trigger] r@[k]).name@ == children@[k].name@,
            forall|k: int| 0 <= k < i
                ==> ((#[trigger] r@[k]).kind == EntryKind::Directory
                    <==> children@[k].tree is Directory),
            forall|k: int| 0 <= k < i
                ==> ((#[trigger] r@[k]).kind == EntryKind::File <==> children@[k].tree is File),
        decreases children.len() - i,
    {
        let e = &children[i];
        let kind = match &e.tree {
            FsTree::Directory(_) => EntryKind::Directory,
            FsTree::File(_) => EntryKind::File,
        };
        r.push(DirEntry { name: e.name.clone(), kind });
        i = i + 1;
    }
    proof {
        if spec_is_root(r@) {
            let k = choose|k: int|
                0 <= k < r@.len() && (#[trigger] r@[k].kind) == EntryKind::Directory
                    && r@[k].name@ == git_dir_name();
            assert(children@[k].tree is Directory && children@[k].name@ == git_dir_name());
        }
        if spec_tree_is_root(children@) {
            let k = choose|k: int|
                0 <= k < children@.len() && (#[trigger] children@[k].tree) is Directory
                    && children@[k].name@ == git_dir_name();
            assert(r@[k].kind == EntryKind::Directory && r@[k].name@ == git_dir_name());
        }
    }
    r
}

/// No two children of one directory share a name, as on a real filesystem.
pub open spec fn unique_names(s: Seq<FsEntry>) -> bool {
    forall|i: int, j: int| 0 <= i < j < s.len() ==> s[i].name@ != s[j].name@
}

/// A tree is well formed when every directory in it has uniquely named
/// children.
pub open spec fn tree_wf(t: FsTree) -> bool
    decreases t, 0int,
{
    match t {
        FsTree::File(_) => true,
        FsTree::Directory(children) => unique_names(children@) && children_wf(children@),
    }
}

pub open spec fn children_wf(s: Seq<FsEntry>) -> bool
    decreases s, s.len(),
{
    if s.len() == 0 {
        true
    } else {
        tree_wf(s.last().tree) && children_wf(s.drop_last())
    }
}

/// `a` is a proper prefix of `b`: the directory at `a` lies strictly above
/// the one at `b`.
pub open spec fn proper_path_prefix(a: Seq<Seq<char>>, b: Seq<Seq<char>>) -> bool {
    a.len() < b.len() && b.subrange(0, a.len() as int) == a
}

/// Every result of scanning a directory's children is a non-empty path
/// whose first component names a traversed (directory, non-excluded)
/// child, and whose remainder is a scan result of that child.
pub proof fn lemma_scan_children_shape(s: Seq<FsEntry>, excluded: Seq<Seq<char>>)
    ensures
        forall|k: int| 0 <= k < spec_scan_children(s, excluded).len() ==> {
            let p = #[trigger] spec_scan_children(s, excluded)[k];
            p.len() >= 1 && exists|i: int|
                0 <= i < s.len() && spec_tree_keep(#[trigger] s[i], excluded)
                    && p[0] == s[i].name@ && spec_scan(s[i].tree).contains(p.skip(1))
        },
    decreases s.len(),
{
    if s.len() == 0 {
        assert(spec_scan_children(s, excluded).len() == 0);
    } else {
        let rest = spec_scan_children(s.drop_last(), excluded);
        let e = s.last();
        lemma_scan_children_shape(s.drop_last(), excluded);
        if spec_tree_keep(e, excluded) {
            let mapped = spec_scan(e.tree).map_values(|p: Seq<Seq<char>>| seq![e.name@] + p);
            let whole = rest + mapped;
            assert(spec_scan_children(s, excluded) == whole);
            assert forall|k: int| 0 <= k < whole.len() implies {
                let p = #[trigger] whole[k];
                p.len() >= 1 && exists|i: int|
                    0 <= i < s.len() && spec_tree_keep(#[trigger] s[i], excluded)
                        && p[0] == s[i].name@ && spec_scan(s[i].tree).contains(p.skip(1))
            } by {
                let p = whole[k];
                if k < rest.len() {
                    assert(rest[k] == p);
                    let i = choose|i: int|
                        0 <= i < s.drop_last().len()
                            && spec_tree_keep(#[trigger] s.drop_last()[i], excluded)
                            && rest[k][0] == s.drop_last()[i].name@
                            && spec_scan(s.drop_last()[i].tree).contains(rest[k].skip(1));
                    assert(s.drop_last()[i] == s[i]);
                    assert(spec_tree_keep(s[i], excluded) && p[0] == s[i].name@
                        && spec_scan(s[i].tree).contains(p.skip(1)));
                } else {
                    let m = k - rest.len();
                    let q = spec_scan(e.tree)[m];
                    assert(p == seq![e.name@] + q);
                    assert(p.len() >= 1 && p[0] == e.name@);
                    assert(p.skip(1) =~= q);
                    let last = s.len() - 1;
                    assert(s[last] == e);
                    assert(spec_tree_keep(s[last], excluded) && p[0] == s[last].name@
                        && spec_scan(s[last].tree).contains(p.skip(1)));
                }
            }
        } else {
            assert(spec_scan_children(s, excluded) == rest);
        }
    }
}

/// Law: when a directory's exclusion marker lists the entry `x`, the scan
/// of that directory finds no repository at or below the child named `x`
/// — whether or not that child is itself a repository root.
pub proof fn lemma_exclusion_respected(t: FsTree, x: Seq<char>)
    requires
        t is Directory,
        spec_exclusions(t->Directory_0@).contains(x),
    ensures
        forall|k: int| 0 <= k < spec_scan(t).len() ==> ((#[trigger] spec_scan(t)[k]).len() == 0
            || spec_scan(t)[k][0] != x),
{
    let children = t->Directory_0@;
    if spec_tree_is_root(children) {
        assert(spec_scan(t) == seq![Seq::<Seq<char>>::empty()]);
        assert(spec_scan(t)[0].len() == 0);
    } else {
        let excluded = spec_exclusions(children);
        let results = spec_scan_children(children, excluded);
        assert(spec_scan(t) == results);
        lemma_scan_children_shape(children, excluded);
        assert forall|k: int| 0 <= k < spec_scan(t).len() implies ((#[trigger] spec_scan(
            t,
        )[k]).len() == 0 || spec_scan(t)[k][0] != x) by {
            let p = results[k];
            assert(p.len() >= 1 && exists|i: int|
                0 <= i < children.len() && spec_tree_keep(#[trigger] children[i], excluded)
                    && p[0] == children[i].name@ && spec_scan(children[i].tree).contains(
                    p.skip(1),
                ));
            let i = choose|i: int|
                0 <= i < children.len() && spec_tree_keep(#[trigger] children[i], excluded)
                    && p[0] == children[i].name@ && spec_scan(children[i].tree).contains(
                    p.skip(1),
                );
            assert(!excluded.contains(children[i].name@));
        }
    }
}

/// Law: a repository root is never searched for nested repositories, so no
/// scan result lies strictly below another scan result.
pub proof fn lemma_no_nested_discovery(t: FsTree)
    requires
        tree_wf(t),
    ensures
        forall|a: int, b: int|
            0 <= a < spec_scan(t).len() && 0 <= b < spec_scan(t).len()
                ==> !proper_path_prefix(#[trigger] spec_scan(t)[a], #[trigger] spec_scan(t)[b]),
    decreases t, 0int,
{
    match t {
        FsTree::File(_) => {
            assert(spec_scan(t) == Seq::<Seq<Seq<char>>>::empty());
        },
        FsTree::Directory(children) => {
            if spec_tree_is_root(children@) {
                assert(spec_scan(t) == seq![Seq::<Seq<char>>::empty()]);
                assert(spec_scan(t).len() == 1);
                assert(!proper_path_prefix(spec_scan(t)[0], spec_scan(t)[0]));
            } else {
                assert(spec_scan(t) == spec_scan_children(children@, spec_exclusions(children@)));
                lemma_children_no_nested(children@, spec_exclusions(children@));
            }
        },
    }
}

proof fn lemma_children_no_nested(s: Seq<FsEntry>, excluded: Seq<Seq<char>>)
    requires
        children_wf(s),
        unique_names(s),
    ensures
        forall|a: int, b: int|
            0 <= a < spec_scan_children(s, excluded).len() && 0 <= b < spec_scan_children(
                s,
                excluded,
            ).len() ==> !proper_path_prefix(
                #[trigger] spec_scan_children(s, excluded)[a],
                #[trigger] spec_scan_children(s, excluded)[b],
            ),
    decreases s, s.len(),
{
    if s.len() == 0 {
    } else {
        let rest = spec_scan_children(s.drop_last(), excluded);
        let e = s.last();
        assert(unique_names(s.drop_last())) by {
            assert(forall|i: int| 0 <= i < s.len() - 1 ==> #[trigger] s.drop_last()[i] == s[i]);
        }
        lemma_children_no_nested(s.drop_last(), excluded);
        lemma_scan_children_shape(s.drop_last(), excluded);
        if spec_tree_keep(e, excluded) {
            lemma_no_nested_discovery(e.tree);
            let mapped = spec_scan(e.tree).map_values(|p: Seq<Seq<char>>| seq![e.name@] + p);
            let whole = rest + mapped;
            assert forall|a: int, b: int|
                0 <= a < whole.len() && 0 <= b < whole.len() implies !proper_path_prefix(
                #[trigger] whole[a],
                #[trigger] whole[b],
            ) by {
                let pa = whole[a];
                let pb = whole[b];
                if proper_path_prefix(pa, pb) {
                    if a < rest.len() && b < rest.len() {
                        assert(!proper_path_prefix(rest[a], rest[b]));
                    } else if a >= rest.len() && b >= rest.len() {
                        let qa = spec_scan(e.tree)[a - rest.len()];
                        let qb = spec_scan(e.tree)[b - rest.len()];
                        assert(pa == seq![e.name@] + qa && pb == seq![e.name@] + qb);
                        assert(proper_path_prefix(qa, qb)) by {
                            assert(qa.len() < qb.len());
                            assert(qb.subrange(0, qa.len() as int) =~= qa) by {
                                assert(forall|m: int| 0 <= m < qa.len()
                                    ==> #[trigger] qb[m] == pb[m + 1] && qa[m] == pa[m + 1]);
                                assert(forall|m: int| 0 <= m < qa.len()
                                    ==> #[trigger] pb.subrange(0, pa.len() as int)[m + 1]
                                        == pb[m + 1]);
                            }
                        }
                    } else if a < rest.len() {
                        // rest result vs a result below the last child: the
                        // first components are two different child names
                        let qb = spec_scan(e.tree)[b - rest.len()];
                        assert(pb == seq![e.name@] + qb);
                        assert(pb[0] == e.name@);
                        let i = choose|i: int|
                            0 <= i < s.drop_last().len()
                                && spec_tree_keep(#[trigger] s.drop_last()[i], excluded)
                                && rest[a][0] == s.drop_last()[i].name@
                                && spec_scan(s.drop_last()[i].tree).contains(rest[a].skip(1));
                        assert(s[i].name@ != s[s.len() - 1].name@);
                        assert(pa.len() >= 1);
                        assert(pb.subrange(0, pa.len() as int)[0] == pb[0]);
                    } else {
                        let qa = spec_scan(e.tree)[a - rest.len()];
                        assert(pa == seq![e.name@] + qa);
                        assert(pa[0] == e.name@);
                        let i = choose|i: int|
                            0 <= i < s.drop_last().len()
                                && spec_tree_keep(#[trigger] s.drop_last()[i], excluded)
                                && rest[b][0] == s.drop_last()[i].name@
                                && spec_scan(s.drop_last()[i].tree).contains(rest[b].skip(1));
                        assert(s[i].name@ != s[s.len() - 1].name@);
                        assert(pa.len() >= 1);
                        assert(pb.subrange(0, pa.len() as int)[0] == pb[0]);
                    }
                }
            }
        }
    }
}

} // verus!
