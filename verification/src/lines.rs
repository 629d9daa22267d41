//! Character-sequence utilities: equality, prefix tests, and the
//! newline-delimited line format shared by the registry file and the
//! per-directory exclusion marker.

use vstd::prelude::*;

verus! {

/// For a vector of characters the deep view and the plain view agree.
pub broadcast proof fn lemma_deep_view_chars(v: Vec<char>)
    ensures
        #[trigger] v.deep_view() == v@,
{
    assert(v.deep_view() =~= v@);
}

/// Indexing the deep view of a vector of paths reaches the view of the
/// path stored there.
pub broadcast proof fn lemma_deep_view_paths(v: Vec<Vec<char>>)
    ensures
        #[trigger] v.deep_view().len() == v@.len(),
        forall|i: int| 0 <= i < v@.len() ==> #[trigger] v.deep_view()[i] == v@[i]@,
{
    assert(forall|i: int| 0 <= i < v@.len()
        ==> #[trigger] v.deep_view()[i] == v@[i].deep_view());
    assert forall|i: int| 0 <= i < v@.len() implies #[trigger] v.deep_view()[i] == v@[i]@ by {
        lemma_deep_view_chars(v@[i]);
    }
}

/// Indexing a deep view reaches the deep view of the element.
pub broadcast proof fn lemma_vec_deep_view_index<T: DeepView>(v: Vec<T>)
    ensures
        #[trigger] v.deep_view().len() == v@.len(),
        forall|i: int| 0 <= i < v@.len() ==> #[trigger] v.deep_view()[i] == v@[i].deep_view(),
{
}

/// A registry entry or file line is usable when it is not empty and holds
/// no newline, so that one entry per line survives a round trip.
pub open spec fn valid_entry(s: Seq<char>) -> bool {
    &&& s.len() > 0
    &&& forall|i: int| 0 <= i < s.len() ==> s[i] != '\n'
}

/// `pre` is a leading prefix of `s`.
pub open spec fn has_prefix(s: Seq<char>, pre: Seq<char>) -> bool {
    &&& pre.len() <= s.len()
    &&& s.subrange(0, pre.len() as int) == pre
}

/// Character-for-character equality of two character vectors.
pub fn chars_eq(a: &Vec<char>, b: &Vec<char>) -> (r: bool)
    ensures
        r == (a@ == b@),
{
    if a.len() != b.len() {
        assert(a@ != b@);
        return false;
    }
    let mut i: usize = 0;
    while i < a.len()
        invariant
            0 <= i <= a.len(),
            a@.len() == b@.len(),
            forall|k: int| 0 <= k < i ==> a@[k] == b@[k],
        decreases a.len() - i,
    {
        if a[i] != b[i] {
            assert(a@ != b@);
            return false;
        }
        i = i + 1;
    }
    assert(a@ =~= b@);
    true
}

/// Does `s` start with `pre`?
pub fn starts_with(s: &Vec<char>, pre: &Vec<char>) -> (r: bool)
    ensures
        r == has_prefix(s@, pre@),
{
    if pre.len() > s.len() {
        return false;
    }
    let mut i: usize = 0;
    while i < pre.len()
        invariant
            0 <= i <= pre.len(),
            pre@.len() <= s@.len(),
            forall|k: int| 0 <= k < i ==> s@[k] == pre@[k],
        decreases pre.len() - i,
    {
        if s[i] != pre[i] {
            assert(s@.subrange(0, pre@.len() as int)[i as int] != pre@[i as int]);
            return false;
        }
        i = i + 1;
    }
    assert(s@.subrange(0, pre@.len() as int) =~= pre@);
    true
}

/// Is `p` one of the paths in `v`?
pub fn contains_path(v: &Vec<Vec<char>>, p: &Vec<char>) -> (r: bool)
    ensures
        r == v.deep_view().contains(p@),
{
    broadcast use lemma_deep_view_paths;

    let mut i: usize = 0;
    while i < v.len()
        invariant
            0 <= i <= v@.len(),
            forall|k: int| 0 <= k < i ==> v.deep_view()[k] != p@,
        decreases v.len() - i,
    {
        proof {
            lemma_deep_view_paths(*v);
            assert(v.deep_view()[i as int] == v@[i as int]@);
        }
        if chars_eq(&v[i], p) {
            assert(v.deep_view()[i as int] == p@);
            return true;
        }
        i = i + 1;
    }
    assert(v.deep_view().len() == v@.len());
    false
}

/// Index of the first newline in `s`, or `s.len()` when there is none.
pub open spec fn first_newline(s: Seq<char>) -> int
    decreases s.len(),
{
    if s.len() == 0 {
        0
    } else if s[0] == '\n' {
        0
    } else {
        1 + first_newline(s.subrange(1, s.len() as int))
    }
}

pub proof fn lemma_first_newline_bounds(s: Seq<char>)
    ensures
        0 <= first_newline(s) <= s.len(),
        forall|k: int| 0 <= k < first_newline(s) ==> s[k] != '\n',
        first_newline(s) < s.len() ==> s[first_newline(s)] == '\n',
    decreases s.len(),
{
    if s.len() == 0 {
    } else if s[0] == '\n' {
    } else {
        let t = s.subrange(1, s.len() as int);
        lemma_first_newline_bounds(t);
        assert forall|k: int| 0 <= k < first_newline(s) implies s[k] != '\n' by {
            if k >= 1 {
                assert(s[k] == t[k - 1]);
                assert(t[k - 1] != '\n');
            }
        }
    }
}

/// If no character before `j` is a newline and `j` is either the end or a
/// newline, then `j` is exactly `first_newline(s)`.
pub proof fn lemma_first_newline_is(s: Seq<char>, j: int)
    requires
        0 <= j <= s.len(),
        forall|k: int| 0 <= k < j ==> s[k] != '\n',
        j < s.len() ==> s[j] == '\n',
    ensures
        first_newline(s) == j,
    decreases s.len(),
{
    if s.len() == 0 {
    } else if s[0] == '\n' {
    } else {
        let t = s.subrange(1, s.len() as int);
        assert(forall|k: int| 0 <= k < j - 1 ==> t[k] != '\n');
        lemma_first_newline_is(t, j - 1);
    }
}

/// The non-empty lines of `s`, in order: maximal newline-free runs, with
/// empty runs dropped.
pub open spec fn spec_lines(s: Seq<char>) -> Seq<Seq<char>>
    decreases s.len(),
{
    if s.len() == 0 {
        Seq::empty()
    } else {
        let i = first_newline(s);
        if !(0 <= i < s.len()) {
            seq![s]
        } else {
            let line = s.subrange(0, i);
            let rest = s.subrange(i + 1, s.len() as int);
            let tail = spec_lines(rest);
            if line.len() == 0 {
                tail
            } else {
                seq![line] + tail
            }
        }
    }
}

/// Every line produced by `spec_lines` is non-empty and newline-free.
pub proof fn lemma_lines_valid(s: Seq<char>)
    ensures
        forall|k: int| 0 <= k < spec_lines(s).len() ==> valid_entry(#[trigger] spec_lines(s)[k]),
    decreases s.len(),
{
    if s.len() == 0 {
    } else {
        let i = first_newline(s);
        lemma_first_newline_bounds(s);
        if i == s.len() {
            assert(valid_entry(s));
        } else {
            let line = s.subrange(0, i);
            let rest = s.subrange(i + 1, s.len() as int);
            lemma_lines_valid(rest);
            if line.len() == 0 {
            } else {
                assert(valid_entry(line));
                assert(forall|k: int| 0 <= k < spec_lines(rest).len()
                    ==> (seq![line] + spec_lines(rest))[k + 1] == #[trigger] spec_lines(rest)[k]);
            }
        }
    }
}

/// One entry per line: each entry followed by a single newline.
pub open spec fn spec_serialize(entries: Seq<Seq<char>>) -> Seq<char>
    decreases entries.len(),
{
    if entries.len() == 0 {
        Seq::empty()
    } else {
        entries.first() + seq!['\n'] + spec_serialize(entries.drop_first())
    }
}

/// Serializing entries and splitting the result back into lines returns
/// exactly the entries that were written, in order.
pub proof fn lemma_lines_round_trip(entries: Seq<Seq<char>>)
    requires
        forall|k: int| 0 <= k < entries.len() ==> valid_entry(#[trigger] entries[k]),
    ensures
        spec_lines(spec_serialize(entries)) == entries,
    decreases entries.len(),
{
    if entries.len() == 0 {
        assert(spec_lines(spec_serialize(entries)) =~= entries);
    } else {
        let e = entries.first();
        let rest = entries.drop_first();
        let s = spec_serialize(entries);
        assert(valid_entry(e));
        assert(s =~= e + seq!['\n'] + spec_serialize(rest));
        assert(forall|k: int| 0 <= k < e.len() ==> s[k] == e[k] && s[k] != '\n');
        assert(s[e.len() as int] == '\n');
        lemma_first_newline_is(s, e.len() as int);
        assert(s.subrange(0, e.len() as int) =~= e);
        assert(s.subrange(e.len() as int + 1, s.len() as int) =~= spec_serialize(rest));
        lemma_lines_round_trip(rest);
        assert(spec_lines(s) =~= seq![e] + spec_lines(spec_serialize(rest)));
        assert(seq![e] + rest =~= entries);
    }
}

/// Split `content` into its non-empty lines, in order.
pub fn split_lines(content: &Vec<char>) -> (r: Vec<Vec<char>>)
    ensures
        r.deep_view() == spec_lines(content@),
        forall|k: int| 0 <= k < r.deep_view().len() ==> valid_entry(#[trigger] r.deep_view()[k]),
{
    let n = content.len();
    let mut r: Vec<Vec<char>> = Vec::new();
    let mut i: usize = 0;
    proof {
        lemma_lines_valid(content@);
        assert(content@.subrange(0, n as int) =~= content@);
    }
    while i < n
        invariant
            0 <= i <= n,
            n == content@.len(),
            r.deep_view() + spec_lines(content@.subrange(i as int, n as int))
                == spec_lines(content@),
        decreases n - i,
    {
        let ghost tail = content@.subrange(i as int, n as int);
        let mut j: usize = i;
        while j < n && content[j] != '\n'
            invariant
                i <= j <= n,
                n == content@.len(),
                forall|k: int| i <= k < j ==> content@[k] != '\n',
            decreases n - j,
        {
            j = j + 1;
        }
        proof {
            assert(forall|k: int| 0 <= k < j - i ==> tail[k] != '\n');
            lemma_first_newline_is(tail, j - i);
        }
        let mut line: Vec<char> = Vec::new();
        let mut k: usize = i;
        while k < j
            invariant
                i <= k <= j <= n,
                n == content@.len(),
                line@ == content@.subrange(i as int, k as int),
            decreases j - k,
        {
            let c = content[k];
            line.push(c);
            proof {
                assert(line@ =~= content@.subrange(i as int, k + 1 as int));
            }
            k = k + 1;
        }
        proof {
            assert(line@ =~= tail.subrange(0, (j - i) as int));
        }
        if line.len() > 0 {
            let ghost old_r = r.deep_view();
            r.push(line);
            proof {
                assert(r.deep_view() =~~= old_r + seq![line@]);
            }
        }
        let next: usize = if j < n {
            j + 1
        } else {
            j
        };
        proof {
            if j < n {
                assert(tail.subrange((j - i + 1) as int, tail.len() as int)
                    =~= content@.subrange(next as int, n as int));
                if line@.len() == 0 {
                    assert(spec_lines(tail)
                        == spec_lines(content@.subrange(next as int, n as int)));
                } else {
                    assert(spec_lines(tail)
                        =~= seq![line@] + spec_lines(content@.subrange(next as int, n as int)));
                }
            } else {
                assert(j - i == tail.len());
                assert(line@ =~= tail);
                assert(tail.len() > 0);
                assert(spec_lines(tail) == seq![tail]);
                assert(content@.subrange(next as int, n as int).len() == 0);
                assert(spec_lines(content@.subrange(next as int, n as int)) =~= Seq::empty());
            }
            assert(r.deep_view() + spec_lines(content@.subrange(next as int, n as int))
                =~= spec_lines(content@));
        }
        i = next;
    }
    proof {
        assert(content@.subrange(n as int, n as int).len() == 0);
        assert(spec_lines(content@.subrange(i as int, n as int)) =~= Seq::empty());
        assert(r.deep_view() =~= spec_lines(content@));
        lemma_lines_valid(content@);
    }
    r
}

/// Write `entries` out one per line, each followed by a newline.
pub fn serialize_lines(entries: &Vec<Vec<char>>) -> (r: Vec<char>)
    ensures
        r@ == spec_serialize(entries.deep_view()),
{
    let mut r: Vec<char> = Vec::new();
    let mut i: usize = 0;
    let ghost es = entries.deep_view();
    proof {
        assert(es.subrange(0, es.len() as int) =~= es);
    }
    while i < entries.len()
        invariant
            0 <= i <= entries.len(),
            es == entries.deep_view(),
            es.len() == entries@.len(),
            r@ + spec_serialize(es.subrange(i as int, es.len() as int)) == spec_serialize(es),
        decreases entries.len() - i,
    {
        let entry = &entries[i];
        let ghost before = r@;
        let mut k: usize = 0;
        while k < entry.len()
            invariant
                0 <= k <= entry.len(),
                0 <= i < es.len(),
                entry@ == es[i as int],
                r@ == before + entry@.subrange(0, k as int),
            decreases entry.len() - k,
        {
            let c = entry[k];
            r.push(c);
            proof {
                assert(r@ =~= before + entry@.subrange(0, k + 1 as int));
            }
            k = k + 1;
        }
        r.push('\n');
        proof {
            let rest = es.subrange(i as int, es.len() as int);
            assert(rest.first() == es[i as int]);
            assert(rest.drop_first() =~= es.subrange(i + 1 as int, es.len() as int));
            assert(entry@.subrange(0, entry@.len() as int) =~= entry@);
            assert(r@ =~= before + es[i as int] + seq!['\n']);
            assert(spec_serialize(rest)
                == es[i as int] + seq!['\n'] + spec_serialize(rest.drop_first()));
            assert(r@ + spec_serialize(es.subrange(i + 1 as int, es.len() as int))
                =~= before + spec_serialize(rest));
        }
        i = i + 1;
    }
    proof {
        assert(spec_serialize(es.subrange(i as int, es.len() as int)) =~= Seq::empty());
        assert(r@ =~= spec_serialize(es));
    }
    r
}

} // verus!
