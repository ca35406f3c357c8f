use vstd::prelude::*;

use crate::strutil::{
    lemma_seq_lt_asymmetric, lemma_seq_lt_connected, lemma_seq_lt_transitive, seq_lt, str_eq,
    str_lt,
};

verus! {

/// A sequence of character sequences in strictly ascending lexicographic
/// order (hence without duplicates).
pub open spec fn sorted_strict(s: Seq<Seq<char>>) -> bool {
    forall|i: int, j: int| 0 <= i < j < s.len() ==> seq_lt(s[i], s[j])
}

/// The views of a sequence of strings.
pub open spec fn views(v: Seq<String>) -> Seq<Seq<char>> {
    v.map_values(|s: String| s@)
}

/// An ordered, deduplicated collection of path strings.  Insertion order is
/// irrelevant; iteration order is the lexicographic order of the entries,
/// which keeps walk results and logs deterministic.
#[derive(Debug)]
pub struct PathSet {
    entries: Vec<String>,
}

impl PathSet {
    /// The entries in order, as character sequences.
    pub closed spec fn seq(&self) -> Seq<Seq<char>> {
        views(self.entries@)
    }

    /// The entries as a set.
    pub closed spec fn set(&self) -> Set<Seq<char>> {
        Set::new(|p: Seq<char>| exists|i: int| 0 <= i < self.seq().len() && self.seq()[i] == p)
    }

    /// Well-formedness: the entries are strictly sorted.
    pub closed spec fn inv(&self) -> bool {
        sorted_strict(self.seq())
    }

    /// A well-formed collection is strictly sorted.
    pub proof fn lemma_sorted(&self)
        requires
            self.inv(),
        ensures
            forall|i: int, j: int|
                0 <= i < j < self.seq().len() ==> seq_lt(
                    #[trigger] self.seq()[i],
                    #[trigger] self.seq()[j],
                ),
    {
    }

    pub proof fn lemma_seq_members(&self)
        ensures
            forall|i: int| 0 <= i < self.seq().len() ==> self.set().contains(#[trigger] self.seq()[i]),
    {
    }

    pub fn new() -> (r: PathSet)
        ensures
            r.inv(),
            r.seq() == Seq::<Seq<char>>::empty(),
            r.set() == Set::<Seq<char>>::empty(),
    {
        let r = PathSet { entries: Vec::new() };
        proof {
            assert(r.seq() =~= Seq::<Seq<char>>::empty());
            assert(r.set() =~= Set::<Seq<char>>::empty());
        }
        r
    }

    pub fn len(&self) -> (r: usize)
        ensures
            r == self.seq().len(),
    {
        self.entries.len()
    }

    pub fn is_empty(&self) -> (r: bool)
        ensures
            r == (self.seq().len() == 0),
    {
        self.entries.len() == 0
    }

    pub fn get(&self, i: usize) -> (r: &String)
        requires
            i < self.seq().len(),
        ensures
            r@ == self.seq()[i as int],
    {
        &self.entries[i]
    }

    pub fn contains(&self, x: &str) -> (r: bool)
        ensures
            r == self.set().contains(x@),
    {
        let n = self.entries.len();
        let mut i: usize = 0;
        while i < n
            invariant
                n == self.seq().len(),
                i <= n,
                forall|k: int| 0 <= k < i ==> self.seq()[k] != x@,
            decreases n - i,
        {
            if str_eq(self.entries[i].as_str(), x) {
                proof {
                    assert(self.seq()[i as int] == x@);
                }
                return true;
            }
            i += 1;
        }
        false
    }

    /// Inserts a path; a path already present is kept once.
    pub fn insert(&mut self, x: String)
        requires
            old(self).inv(),
        ensures
            final(self).inv(),
            final(self).set() == old(self).set().insert(x@),
    {
        let n = self.entries.len();
        let mut idx: usize = 0;
        while idx < n && str_lt(self.entries[idx].as_str(), x.as_str())
            invariant
                self == old(self),
                old(self).inv(),
                n == self.seq().len(),
                idx <= n,
                forall|k: int| 0 <= k < idx ==> seq_lt(#[trigger] self.seq()[k], x@),
            decreases n - idx,
        {
            idx += 1;
        }
        if idx < n && str_eq(self.entries[idx].as_str(), x.as_str()) {
            proof {
                assert(self.seq()[idx as int] == x@);
                assert(self.set().contains(x@));
                assert(self.set() =~= old(self).set().insert(x@));
            }
            return;
        }
        proof {
            if idx < self.seq().len() && !seq_lt(x@, self.seq()[idx as int]) {
                lemma_seq_lt_connected(self.seq()[idx as int], x@);
                assert(self.seq()[idx as int] == x@);
                assert(false);
            }
            assert forall|k: int| idx <= k < self.seq().len() implies seq_lt(
                x@,
                #[trigger] self.seq()[k],
            ) by {
                if k > idx {
                    assert(seq_lt(self.seq()[idx as int], self.seq()[k]));
                    lemma_seq_lt_transitive(x@, self.seq()[idx as int], self.seq()[k]);
                }
            }
        }
        let ghost old_seq = self.seq();
        self.entries.insert(idx, x);
        proof {
            assert(self.seq() =~= old_seq.insert(idx as int, x@));
            assert forall|i: int, j: int| 0 <= i < j < self.seq().len() implies seq_lt(
                self.seq()[i],
                self.seq()[j],
            ) by {
                let a = self.seq()[i];
                let b = self.seq()[j];
                if i < idx && j < idx {
                } else if j == idx {
                    assert(a == old_seq[i]);
                } else if i == idx {
                    assert(b == old_seq[j - 1]);
                } else if i < idx {
                    assert(a == old_seq[i] && b == old_seq[j - 1]);
                } else {
                    assert(a == old_seq[i - 1] && b == old_seq[j - 1]);
                }
            }
            assert(self.set() =~= old(self).set().insert(x@)) by {
                assert forall|p: Seq<char>| self.set().contains(p) implies old(self).set().insert(
                    x@,
                ).contains(p) by {
                    let i = choose|i: int| 0 <= i < self.seq().len() && self.seq()[i] == p;
                    if i < idx {
                        assert(old_seq[i] == p);
                    } else if i > idx {
                        assert(old_seq[i - 1] == p);
                    }
                }
                assert forall|p: Seq<char>| old(self).set().insert(x@).contains(p) implies self.set().contains(p) by {
                    if p == x@ {
                        assert(self.seq()[idx as int] == p);
                    } else {
                        let i = choose|i: int| 0 <= i < old_seq.len() && old_seq[i] == p;
                        if i < idx {
                            assert(self.seq()[i] == p);
                        } else {
                            assert(self.seq()[i + 1] == p);
                        }
                    }
                }
            }
        }
    }

    /// Removes a path, reporting whether it was present.
    pub fn remove(&mut self, x: &str) -> (r: bool)
        requires
            old(self).inv(),
        ensures
            final(self).inv(),
            r == old(self).set().contains(x@),
            final(self).set() == old(self).set().remove(x@),
    {
        let n = self.entries.len();
        let mut i: usize = 0;
        while i < n
            invariant
                self == old(self),
                old(self).inv(),
                n == self.seq().len(),
                i <= n,
                forall|k: int| 0 <= k < i ==> self.seq()[k] != x@,
            decreases n - i,
        {
            if str_eq(self.entries[i].as_str(), x) {
                let ghost old_seq = self.seq();
                proof {
                    assert forall|k: int| 0 <= k < old_seq.len() && k != i implies old_seq[k]
                        != x@ by {
                        if k < i {
                            lemma_seq_lt_asymmetric(old_seq[k], old_seq[i as int]);
                        } else {
                            lemma_seq_lt_asymmetric(old_seq[i as int], old_seq[k]);
                        }
                    }
                }
                self.entries.remove(i);
                proof {
                    assert(self.seq() =~= old_seq.remove(i as int));
                    assert forall|a: int, b: int| 0 <= a < b < self.seq().len() implies seq_lt(
                        self.seq()[a],
                        self.seq()[b],
                    ) by {
                        let oa: int = if a < i { a } else { a + 1 };
                        let ob: int = if b < i { b } else { b + 1 };
                        assert(self.seq()[a] == old_seq[oa]);
                        assert(self.seq()[b] == old_seq[ob]);
                    }
                    assert(self.set() =~= old(self).set().remove(x@)) by {
                        assert forall|p: Seq<char>| self.set().contains(p) implies old(self).set().remove(x@).contains(p) by {
                            let k = choose|k: int|
                                0 <= k < self.seq().len() && self.seq()[k] == p;
                            let ok: int = if k < i { k } else { k + 1 };
                            assert(old_seq[ok] == p);
                        }
                        assert forall|p: Seq<char>| old(self).set().remove(x@).contains(p) implies self.set().contains(p) by {
                            let k = choose|k: int| 0 <= k < old_seq.len() && old_seq[k] == p;
                            if k < i {
                                assert(self.seq()[k] == p);
                            } else {
                                assert(self.seq()[k - 1] == p);
                            }
                        }
                    }
                    assert(old_seq[i as int] == x@);
                    assert(old(self).set().contains(x@));
                }
                return true;
            }
            i += 1;
        }
        proof {
            assert(!old(self).set().contains(x@));
            assert(self.set() =~= old(self).set().remove(x@));
        }
        false
    }

    /// An identical copy.
    pub fn duplicate(&self) -> (r: PathSet)
        ensures
            r.seq() == self.seq(),
            r.set() == self.set(),
            r.inv() == self.inv(),
    {
        let n = self.entries.len();
        let mut out: Vec<String> = Vec::new();
        let mut i: usize = 0;
        while i < n
            invariant
                n == self.seq().len(),
                i <= n,
                views(out@) =~= self.seq().take(i as int),
            decreases n - i,
        {
            let ghost prev = out@;
            out.push(self.entries[i].clone());
            proof {
                assert(views(prev).len() == i as int);
                assert(prev.len() == i as int);
                assert(out@ =~= prev.push(self.entries@[i as int]));
                assert forall|k: int| 0 <= k < out@.len() implies views(out@)[k]
                    == self.seq().take(i + 1)[k] by {
                    assert(views(out@)[k] == out@[k]@);
                    if k < i {
                        assert(out@[k] == prev[k]);
                        assert(views(prev)[k] == self.seq()[k]);
                    } else {
                        assert(out@[k] == self.entries@[i as int]);
                    }
                }
                assert(views(out@) =~= self.seq().take(i + 1));
            }
            i += 1;
        }
        let r = PathSet { entries: out };
        proof {
            assert(r.seq() =~= self.seq());
            assert(r.set() =~= self.set());
        }
        r
    }

    /// The set difference `self - other`, in the order of `self`.
    pub fn difference(&self, other: &PathSet) -> (r: PathSet)
        requires
            self.inv(),
        ensures
            r.inv(),
            r.set() == self.set().difference(other.set()),
            r.seq() == self.seq().filter(|p: Seq<char>| !other.set().contains(p)),
    {
        let ghost pred = |p: Seq<char>| !other.set().contains(p);
        let n = self.entries.len();
        let mut out: Vec<String> = Vec::new();
        let mut i: usize = 0;
        proof {
            reveal(Seq::filter);
            assert(self.seq().take(0) =~= Seq::<Seq<char>>::empty());
            assert(views(out@) =~= self.seq().take(0).filter(pred));
        }
        while i < n
            invariant
                n == self.seq().len(),
                i <= n,
                self.inv(),
                pred == (|p: Seq<char>| !other.set().contains(p)),
                views(out@) == self.seq().take(i as int).filter(pred),
            decreases n - i,
        {
            let ghost prev = views(out@);
            proof {
                reveal(Seq::filter);
                assert(self.seq().take(i + 1).drop_last() =~= self.seq().take(i as int));
                assert(self.seq().take(i + 1).last() == self.seq()[i as int]);
            }
            if !other.contains(self.entries[i].as_str()) {
                out.push(self.entries[i].clone());
                proof {
                    assert(views(out@) =~= prev.push(self.seq()[i as int]));
                }
            }
            i += 1;
        }
        let r = PathSet { entries: out };
        proof {
            assert(self.seq().take(n as int) =~= self.seq());
            assert(r.seq() == self.seq().filter(pred));
            self.seq().filter_lemma(pred);
            lemma_filter_subset(self.seq(), pred);
            assert forall|a: int, b: int| 0 <= a < b < r.seq().len() implies seq_lt(
                r.seq()[a],
                r.seq()[b],
            ) by {
                lemma_filter_distinct(self.seq(), pred, a, b);
            }
            assert(r.set() =~= self.set().difference(other.set())) by {
                assert forall|p: Seq<char>| r.set().contains(p) implies self.set().contains(p)
                    && !other.set().contains(p) by {
                    let k = choose|k: int| 0 <= k < r.seq().len() && r.seq()[k] == p;
                    assert(pred(r.seq()[k]));
                    assert(self.seq().contains(p));
                    let j = choose|j: int| 0 <= j < self.seq().len() && self.seq()[j] == p;
                }
                assert forall|p: Seq<char>|
                    self.set().contains(p) && !other.set().contains(p) implies r.set().contains(
                    p,
                ) by {
                    let j = choose|j: int| 0 <= j < self.seq().len() && self.seq()[j] == p;
                    assert(pred(self.seq()[j]));
                    assert(r.seq().contains(self.seq()[j]));
                    let k = choose|k: int| 0 <= k < r.seq().len() && r.seq()[k] == p;
                }
            }
        }
        r
    }

    /// The set union of the two collections.
    pub fn union(&self, other: &PathSet) -> (r: PathSet)
        requires
            self.inv(),
        ensures
            r.inv(),
            r.set() == self.set().union(other.set()),
    {
        let mut r = self.duplicate();
        let n = other.entries.len();
        let mut i: usize = 0;
        proof {
            assert(other.seq().take(0) =~= Seq::<Seq<char>>::empty());
            assert(other.seq().take(0).to_set() =~= Set::<Seq<char>>::empty());
            assert(r.set() =~= self.set().union(other.seq().take(0).to_set()));
        }
        while i < n
            invariant
                n == other.seq().len(),
                i <= n,
                r.inv(),
                r.set() =~= self.set().union(other.seq().take(i as int).to_set()),
            decreases n - i,
        {
            r.insert(other.entries[i].clone());
            proof {
                lemma_to_set_push(other.seq().take(i as int), other.seq()[i as int]);
                assert(other.seq().take(i + 1) =~= other.seq().take(i as int).push(
                    other.seq()[i as int],
                ));
                assert(r.set() =~= self.set().union(other.seq().take(i + 1).to_set()));
            }
            i += 1;
        }
        proof {
            assert(other.seq().take(n as int) =~= other.seq());
            assert(r.set() =~= self.set().union(other.set())) by {
                assert forall|p: Seq<char>| other.seq().to_set().contains(p) implies other.set().contains(p) by {
                    let k = choose|k: int| 0 <= k < other.seq().len() && other.seq()[k] == p;
                }
                assert forall|p: Seq<char>| other.set().contains(p) implies other.seq().to_set().contains(p) by {
                    let k = choose|k: int| 0 <= k < other.seq().len() && other.seq()[k] == p;
                    assert(other.seq().contains(p));
                }
            }
        }
        r
    }

    /// Builds a collection from the given paths.
    pub fn from_vec(v: Vec<String>) -> (r: PathSet)
        ensures
            r.inv(),
            r.set() == views(v@).to_set(),
    {
        let ghost vs = views(v@);
        let n = v.len();
        let mut r = PathSet::new();
        let mut i: usize = 0;
        while i < n
            invariant
                n == v@.len(),
                vs == views(v@),
                i <= n,
                r.inv(),
                r.set() =~= vs.take(i as int).to_set(),
            decreases n - i,
        {
            r.insert(v[i].clone());
            proof {
                lemma_to_set_push(vs.take(i as int), vs[i as int]);
                assert(vs.take(i + 1) =~= vs.take(i as int).push(vs[i as int]));
            }
            i += 1;
        }
        proof {
            assert(vs.take(n as int) =~= vs);
        }
        r
    }
}

proof fn lemma_to_set_push(s: Seq<Seq<char>>, x: Seq<char>)
    ensures
        s.push(x).to_set() == s.to_set().insert(x),
{
    assert(s.push(x).to_set() =~= s.to_set().insert(x)) by {
        assert forall|p: Seq<char>| s.push(x).to_set().contains(p) implies s.to_set().insert(
            x,
        ).contains(p) by {
            let k = choose|k: int| 0 <= k < s.push(x).len() && s.push(x)[k] == p;
            if k < s.len() {
                assert(s[k] == p);
            }
        }
        assert forall|p: Seq<char>| s.to_set().insert(x).contains(p) implies s.push(
            x,
        ).to_set().contains(p) by {
            if p == x {
                assert(s.push(x)[s.len() as int] == p);
            } else {
                let k = choose|k: int| 0 <= k < s.len() && s[k] == p;
                assert(s.push(x)[k] == p);
            }
        }
    }
}

/// Every element of a filtered sequence occurs in the source.
proof fn lemma_filter_subset(s: Seq<Seq<char>>, pred: spec_fn(Seq<char>) -> bool)
    ensures
        forall|k: int|
            0 <= k < s.filter(pred).len() ==> s.contains(#[trigger] s.filter(pred)[k]),
    decreases s.len(),
{
    reveal(Seq::filter);
    if s.len() > 0 {
        lemma_filter_subset(s.drop_last(), pred);
        let f = s.filter(pred);
        let fd = s.drop_last().filter(pred);
        assert forall|k: int| 0 <= k < f.len() implies s.contains(#[trigger] f[k]) by {
            if k < fd.len() {
                assert(fd[k] == f[k]);
                assert(s.drop_last().contains(fd[k]));
                let j = choose|j: int| 0 <= j < s.drop_last().len() && s.drop_last()[j] == fd[k];
                assert(s[j] == f[k]);
            } else {
                assert(f[k] == s.last());
                assert(s[s.len() - 1] == f[k]);
            }
        }
    }
}

/// In a strictly sorted source, a filtered sequence is strictly sorted too.
proof fn lemma_filter_distinct(
    s: Seq<Seq<char>>,
    pred: spec_fn(Seq<char>) -> bool,
    a: int,
    b: int,
)
    requires
        sorted_strict(s),
        0 <= a < b < s.filter(pred).len(),
    ensures
        seq_lt(s.filter(pred)[a], s.filter(pred)[b]),
    decreases s.len(),
{
    reveal(Seq::filter);
    if s.len() == 0 {
    } else {
        let f = s.filter(pred);
        let fd = s.drop_last().filter(pred);
        assert(sorted_strict(s.drop_last())) by {
            assert forall|i: int, j: int|
                0 <= i < j < s.drop_last().len() implies seq_lt(
                s.drop_last()[i],
                s.drop_last()[j],
            ) by {
                assert(s.drop_last()[i] == s[i]);
                assert(s.drop_last()[j] == s[j]);
            }
        }
        if pred(s.last()) {
            assert(f == fd.push(s.last()));
            if b < fd.len() {
                lemma_filter_distinct(s.drop_last(), pred, a, b);
                assert(f[a] == fd[a] && f[b] == fd[b]);
            } else {
                assert(f[b] == s.last());
                assert(f[a] == fd[a]);
                lemma_filter_subset(s.drop_last(), pred);
                assert(s.drop_last().contains(fd[a]));
                let j = choose|j: int| 0 <= j < s.drop_last().len() && s.drop_last()[j] == fd[a];
                assert(s[j] == f[a]);
                assert(seq_lt(s[j], s[s.len() - 1]));
            }
        } else {
            assert(f == fd);
            lemma_filter_distinct(s.drop_last(), pred, a, b);
        }
    }
}

/// Exclusion correctness: a set difference never keeps an ignored path,
/// and keeps every other path of the walk.
pub proof fn lemma_exclusion_correctness(walked: &PathSet, ignored: &PathSet, excluded: &PathSet)
    requires
        excluded.set() == walked.set().difference(ignored.set()),
    ensures
        forall|p: Seq<char>| #[trigger] excluded.set().contains(p) ==> !ignored.set().contains(p),
        forall|p: Seq<char>|
            walked.set().contains(p) && !ignored.set().contains(p)
                ==> #[trigger] excluded.set().contains(p),
{
}

} // verus!
