use vstd::prelude::*;

use crate::fs::{
    base_name, hidden_name, last_slash, is_ancestor_or_self, is_hidden_name, is_strict_ancestor,
    lemma_ancestor_below_parent, lemma_ancestor_transitive, lemma_parent_is_strict_ancestor,
    parent_of, parent_seq,
};
use crate::pathset::{views, PathSet};
use crate::strutil::str_eq;

verus! {

/// What one directory entry is: a terminal file, a directory whose contents
/// could be listed, or a directory whose listing failed.
pub enum EntryKind {
    File,
    Dir,
    UnreadableDir,
}

/// One entry of a tree snapshot: a full path (under the walked root) and its
/// kind.
pub struct TreeEntry {
    pub path: String,
    pub kind: EntryKind,
}

/// A snapshot of a directory tree: every entry reachable from the root
/// through readable, non-hidden directories, including hidden entries
/// themselves (but nothing below them).  The engines compute over this value;
/// reading the disk into it is the caller's concern.
pub struct Tree {
    pub entries: Vec<TreeEntry>,
}

impl Tree {
    pub open spec fn paths(&self) -> Seq<Seq<char>> {
        self.entries@.map_values(|e: TreeEntry| e.path@)
    }

    pub open spec fn has_entry(&self, p: Seq<char>) -> bool {
        exists|i: int| 0 <= i < self.paths().len() && self.paths()[i] == p
    }

    /// The index of the entry with path `p` (meaningful under `wf`, which
    /// makes paths unique).
    pub open spec fn idx_of(&self, p: Seq<char>) -> int {
        choose|i: int| 0 <= i < self.paths().len() && self.paths()[i] == p
    }

    pub open spec fn kind_of(&self, p: Seq<char>) -> EntryKind {
        self.entries@[self.idx_of(p)].kind
    }

    /// An existing entry that is a directory, listable or not.
    pub open spec fn is_dirlike(&self, p: Seq<char>) -> bool {
        self.has_entry(p) && self.kind_of(p) !is File
    }

    pub open spec fn is_file(&self, p: Seq<char>) -> bool {
        self.has_entry(p) && self.kind_of(p) is File
    }

    /// Well-formedness of a snapshot taken under `root`: every path lies
    /// strictly below the root, paths are unique, and every entry hangs
    /// either directly under the root or under a listable, non-hidden
    /// directory entry.
    pub open spec fn wf(&self, root: Seq<char>) -> bool {
        &&& forall|i: int|
            0 <= i < self.paths().len() ==> is_strict_ancestor(root, #[trigger] self.paths()[i])
        &&& forall|i: int, j: int|
            0 <= i < j < self.paths().len() ==> self.paths()[i] != self.paths()[j]
        &&& forall|i: int|
            0 <= i < self.paths().len() ==> {
                let par = parent_seq(#[trigger] self.paths()[i]);
                &&& par is Some
                &&& (par == Some(root) || {
                    &&& self.has_entry(par.unwrap())
                    &&& self.kind_of(par.unwrap()) is Dir
                    &&& !hidden_name(base_name(par.unwrap()))
                })
            }
    }

    /// A directory is visible when the walk reaches it: it is the root, or a
    /// non-hidden directory entry whose parent is visible.
    pub open spec fn visible_dir(&self, root: Seq<char>, p: Seq<char>) -> bool
        decreases p.len(),
        via Self::visible_dir_decreases
    {
        if p == root {
            true
        } else if parent_seq(p) is Some {
            &&& self.is_dirlike(p)
            &&& !hidden_name(base_name(p))
            &&& self.visible_dir(root, parent_seq(p).unwrap())
        } else {
            false
        }
    }

    #[via_fn]
    proof fn visible_dir_decreases(&self, root: Seq<char>, p: Seq<char>) {
        if p != root && parent_seq(p) is Some {
            lemma_parent_is_strict_ancestor(p);
        }
    }

    /// Entry `i` disqualifies its directory: it is not discounted by the
    /// phantom set, and it is a real file or a hidden entry.
    pub open spec fn entry_disqualifies(&self, phantoms: Set<Seq<char>>, i: int) -> bool {
        &&& !phantoms.contains(self.paths()[i])
        &&& (self.entries@[i].kind is File || hidden_name(base_name(self.paths()[i])))
    }

    /// A directory is clean when it could be listed and none of its
    /// immediate entries disqualifies it.
    pub open spec fn clean_dir(&self, root: Seq<char>, phantoms: Set<Seq<char>>, d: Seq<char>) -> bool {
        &&& (d == root || self.kind_of(d) is Dir)
        &&& forall|i: int|
            0 <= i < self.paths().len() && parent_seq(#[trigger] self.paths()[i]) == Some(d)
                ==> !self.entry_disqualifies(phantoms, i)
    }

    /// A directory is potentially empty when it is visible and every visible
    /// directory at or below it is clean: after discounting phantoms and
    /// hidden entries it holds no file, directly or transitively.
    pub open spec fn potentially_empty(
        &self,
        root: Seq<char>,
        phantoms: Set<Seq<char>>,
        p: Seq<char>,
    ) -> bool {
        &&& self.visible_dir(root, p)
        &&& forall|q: Seq<char>|
            self.visible_dir(root, q) && #[trigger] is_ancestor_or_self(p, q) ==> self.clean_dir(
                root,
                phantoms,
                q,
            )
    }

    /// A path of the snapshot names a visible file: a non-hidden file entry.
    pub open spec fn walk_member(&self, p: Seq<char>) -> bool {
        self.is_file(p) && !hidden_name(base_name(p))
    }
}

/// The walk of a snapshot: the set of every non-hidden terminal file path.
/// Directories are traversed but not reported.
pub fn walk_dir(t: &Tree, root: &str) -> (r: PathSet)
    requires
        t.wf(root@),
    ensures
        r.inv(),
        forall|p: Seq<char>| r.set().contains(p) <==> t.walk_member(p),
{
    let n = t.entries.len();
    let mut r = PathSet::new();
    let mut i: usize = 0;
    while i < n
        invariant
            n == t.paths().len(),
            i <= n,
            t.wf(root@),
            r.inv(),
            forall|p: Seq<char>|
                r.set().contains(p) <==> exists|k: int|
                    0 <= k < i && #[trigger] t.paths()[k] == p && t.walk_member(p),
        decreases n - i,
    {
        let ghost prev = r.set();
        let is_file_entry = match t.entries[i].kind {
            EntryKind::File => true,
            _ => false,
        };
        proof {
            assert(t.paths()[i as int] == t.entries@[i as int].path@);
            if t.has_entry(t.paths()[i as int]) {
                let j = t.idx_of(t.paths()[i as int]);
                assert(t.paths()[j] == t.paths()[i as int]);
                assert(j == i as int);
            }
            assert(t.paths()[i as int] == t.paths()[i as int]);
        }
        if is_file_entry {
            let name = crate::fs::file_name_of(t.entries[i].path.as_str());
            if !is_hidden_name(name.as_str()) {
                r.insert(t.entries[i].path.clone());
            }
        }
        proof {
            assert forall|p: Seq<char>| r.set().contains(p) implies exists|k: int|
                0 <= k < i + 1 && #[trigger] t.paths()[k] == p && t.walk_member(p) by {
                if prev.contains(p) {
                    let k = choose|k: int|
                        0 <= k < i && #[trigger] t.paths()[k] == p && t.walk_member(p);
                    assert(0 <= k < i + 1 && t.paths()[k] == p && t.walk_member(p));
                } else {
                    assert(p == t.paths()[i as int]);
                    assert(t.walk_member(p));
                }
            }
            assert forall|p: Seq<char>|
                (exists|k: int| 0 <= k < i + 1 && #[trigger] t.paths()[k] == p && t.walk_member(p))
                implies r.set().contains(p) by {
                let k = choose|k: int|
                    0 <= k < i + 1 && #[trigger] t.paths()[k] == p && t.walk_member(p);
                if k < i {
                    assert(prev.contains(p));
                } else {
                    assert(t.kind_of(p) is File);
                    assert(!hidden_name(base_name(p)));
                }
            }
        }
        i += 1;
    }
    proof {
        assert forall|p: Seq<char>| #[trigger] t.walk_member(p) implies r.set().contains(p) by {
            let k = t.idx_of(p);
            assert(0 <= k < n && t.paths()[k] == p);
        }
    }
    r
}


/// Queue elements are the root or known directory entries whose parent was
/// queued earlier, before the processing head; elements never repeat; the
/// root sits first.
pub open spec fn queue_wf(t: &Tree, root: Seq<char>, qs: Seq<Seq<char>>, head: int) -> bool {
    &&& qs.len() > 0
    &&& qs[0] == root
    &&& forall|i: int, j: int| 0 <= i < j < qs.len() ==> qs[i] != qs[j]
    &&& forall|i: int|
        0 <= i < qs.len() ==> (#[trigger] qs[i] == root || {
            &&& t.has_entry(qs[i])
            &&& t.is_dirlike(qs[i])
            &&& !hidden_name(base_name(qs[i]))
            &&& parent_seq(qs[i]) is Some
            &&& exists|j: int| 0 <= j < head && qs[j] == parent_seq(qs[i]).unwrap()
        })
}

/// Every listable, non-hidden directory entry hanging under a processed
/// queue element has been queued.
pub open spec fn queue_complete(t: &Tree, qs: Seq<Seq<char>>, head: int) -> bool {
    forall|j: int, i: int|
        0 <= j < head && 0 <= i < t.paths().len() && parent_seq(#[trigger] t.paths()[i]) == Some(
            #[trigger] qs[j],
        ) && t.entries@[i].kind !is File && !hidden_name(base_name(t.paths()[i]))
            ==> qs.contains(t.paths()[i])
}

/// The paths of a sequence of tree entries.
pub open spec fn qviews(v: Seq<TreeEntry>) -> Seq<Seq<char>> {
    v.map_values(|e: TreeEntry| e.path@)
}

/// A dirty directory among the first `head` queued ones sits at or below
/// `p`.
pub open spec fn dirty_witness(
    t: &Tree,
    root: Seq<char>,
    phantoms: Set<Seq<char>>,
    qs: Seq<Seq<char>>,
    head: int,
    p: Seq<char>,
) -> bool {
    exists|j: int|
        0 <= j < head && !t.clean_dir(root, phantoms, #[trigger] qs[j]) && is_ancestor_or_self(
            p,
            qs[j],
        )
}

/// The candidate set holds exactly the queued directories with no dirty
/// processed directory at or below them.
pub open spec fn result_inv(
    t: &Tree,
    root: Seq<char>,
    phantoms: Set<Seq<char>>,
    qs: Seq<Seq<char>>,
    head: int,
    rset: Set<Seq<char>>,
) -> bool {
    forall|p: Seq<char>|
        #[trigger] rset.contains(p) <==> (qs.contains(p) && !dirty_witness(
            t,
            root,
            phantoms,
            qs,
            head,
            p,
        ))
}

/// Any ancestor of a queued path is itself queued, unless it lies strictly
/// above the root.
proof fn lemma_chain_in_queue(
    t: &Tree,
    root: Seq<char>,
    qs: Seq<Seq<char>>,
    d: Seq<char>,
    a: Seq<char>,
)
    requires
        t.wf(root),
        forall|i: int|
            0 <= i < qs.len() ==> (#[trigger] qs[i] == root || (parent_seq(qs[i]) is Some
                && qs.contains(parent_seq(qs[i]).unwrap()))),
        qs.contains(d),
        is_ancestor_or_self(a, d),
    ensures
        qs.contains(a) || is_strict_ancestor(a, root),
    decreases d.len(),
{
    if a == d {
    } else if d == root {
        assert(is_strict_ancestor(a, root));
    } else {
        let di = choose|i: int| 0 <= i < qs.len() && qs[i] == d;
        assert(parent_seq(d) is Some && qs.contains(parent_seq(d).unwrap()));
        lemma_ancestor_below_parent(a, d);
        lemma_parent_is_strict_ancestor(d);
        lemma_chain_in_queue(t, root, qs, parent_seq(d).unwrap(), a);
    }
}

/// A queued path is a visible directory.
proof fn lemma_queued_implies_visible(
    t: &Tree,
    root: Seq<char>,
    qs: Seq<Seq<char>>,
    head: int,
    i: int,
)
    requires
        t.wf(root),
        queue_wf(t, root, qs, head),
        head <= qs.len(),
        0 <= i < qs.len(),
    ensures
        t.visible_dir(root, qs[i]),
    decreases qs[i].len(),
{
    if qs[i] != root {
        let j = choose|j: int| 0 <= j < head && qs[j] == parent_seq(qs[i]).unwrap();
        lemma_parent_is_strict_ancestor(qs[i]);
        lemma_queued_implies_visible(t, root, qs, head, j);
    }
}

/// Once every queued directory has been processed, every visible directory
/// has been queued.
proof fn lemma_visible_implies_queued(t: &Tree, root: Seq<char>, qs: Seq<Seq<char>>, p: Seq<char>)
    requires
        t.wf(root),
        queue_wf(t, root, qs, qs.len() as int),
        queue_complete(t, qs, qs.len() as int),
        t.visible_dir(root, p),
    ensures
        qs.contains(p),
    decreases p.len(),
{
    if p == root {
        assert(qs[0] == p);
    } else {
        let par = parent_seq(p).unwrap();
        lemma_parent_is_strict_ancestor(p);
        lemma_visible_implies_queued(t, root, qs, par);
        let j = choose|j: int| 0 <= j < qs.len() && qs[j] == par;
        let i = t.idx_of(p);
        assert(t.paths()[i] == p);
        assert(t.entries@[i].kind !is File) by {
            assert(t.kind_of(p) == t.entries@[t.idx_of(p)].kind);
        }
        assert(qs.contains(t.paths()[i]));
    }
}

/// Computes the set of potentially empty directories under `root`: those
/// that, after discounting the phantom entries and hidden names, contain no
/// real file anywhere below them.  The root itself is a candidate; callers
/// that want proper subdirectories only drop it.
///
/// The search is breadth-first.  Every directory starts as a candidate when
/// discovered; a disqualifying entry removes the directory and climbs its
/// recorded ancestors, stopping at the first one already gone.
#[verifier::rlimit(60)]
pub fn potentially_empty_dirs(t: &Tree, root: &str, phantom_entries: &PathSet) -> (r: PathSet)
    requires
        t.wf(root@),
    ensures
        r.inv(),
        forall|p: Seq<char>|
            #[trigger] r.set().contains(p) <==> t.potentially_empty(
                root@,
                phantom_entries.set(),
                p,
            ),
{
    let ghost phantoms = phantom_entries.set();
    let n = t.entries.len();
    let mut result = PathSet::new();
    result.insert(root.to_owned());
    let mut queue: Vec<TreeEntry> = Vec::new();
    queue.push(TreeEntry { path: root.to_owned(), kind: EntryKind::Dir });
    let mut head: usize = 0;
    proof {
        let qs0 = qviews(queue@);
        assert(qs0 =~= seq![root@]);
        assert(t.paths().no_duplicates());
        assert(result_inv(t, root@, phantoms, qs0, 0, result.set())) by {
            assert forall|p: Seq<char>| #[trigger] result.set().contains(p) implies (qs0.contains(
                p,
            ) && !dirty_witness(t, root@, phantoms, qs0, 0, p)) by {
                assert(p == root@);
                assert(qs0[0] == root@);
            }
            assert forall|p: Seq<char>|
                qs0.contains(p) && !dirty_witness(t, root@, phantoms, qs0, 0, p) implies (
                #[trigger] result.set().contains(p)) by {
                let ip = choose|ip: int| 0 <= ip < qs0.len() && qs0[ip] == p;
                assert(p == root@);
            }
        }
    }
    while head < queue.len()
        invariant
            t.wf(root@),
            phantoms == phantom_entries.set(),
            n == t.paths().len(),
            head <= queue@.len(),
            queue@.len() <= n + 1,
            queue_wf(t, root@, qviews(queue@), head as int),
            queue_complete(t, qviews(queue@), head as int),
            queue@[0].kind is Dir,
            forall|i: int|
                0 < i < queue@.len() ==> t.kind_of(
                    #[trigger] qviews(queue@)[i],
                ) == queue@[i].kind,
            result.inv(),
            result_inv(
                t,
                root@,
                phantoms,
                qviews(queue@),
                head as int,
                result.set(),
            ),
        decreases n + 1 - head,
    {
        let ghost old_qs = qviews(queue@);
        let d = queue[head].path.clone();
        let ghost dseq = d@;
        proof {
            assert(old_qs[head as int] == dseq);
        }
        let mut dirty = match queue[head].kind {
            EntryKind::UnreadableDir => true,
            _ => false,
        };
        proof {
            if head > 0 {
                assert(t.kind_of(dseq) == queue@[head as int].kind);
            }
            assert(dirty == !(dseq == root@ || t.kind_of(dseq) is Dir)) by {
                if head == 0 {
                    assert(dseq == root@);
                } else {
                    assert(old_qs[head as int] != root@);
                    assert(dseq != root@);
                }
            }
        }
        // Scan the immediate entries of `d`: a real non-phantom file or a
        // hidden entry disqualifies it; non-hidden subdirectories become new
        // candidates.
        let mut pending: Vec<TreeEntry> = Vec::new();
        let mut i: usize = 0;
        while i < n
            invariant
                t.wf(root@),
                phantoms == phantom_entries.set(),
                n == t.paths().len(),
                i <= n,
                d@ == dseq,
                dirty == (!(dseq == root@ || t.kind_of(dseq) is Dir) || exists|k: int|
                    0 <= k < i && parent_seq(#[trigger] t.paths()[k]) == Some(dseq)
                        && t.entry_disqualifies(phantoms, k)),
                forall|k: int|
                    0 <= k < pending@.len() ==> {
                        let q = #[trigger] qviews(pending@)[k];
                        &&& parent_seq(q) == Some(dseq)
                        &&& t.has_entry(q)
                        &&& t.kind_of(q) == pending@[k].kind
                        &&& t.kind_of(q) !is File
                        &&& !hidden_name(base_name(q))
                        &&& exists|e: int| 0 <= e < i && t.paths()[e] == q
                    },
                forall|k1: int, k2: int|
                    0 <= k1 < k2 < pending@.len() ==> qviews(pending@)[k1] != qviews(pending@)[k2],
                forall|k: int|
                    0 <= k < i && parent_seq(#[trigger] t.paths()[k]) == Some(dseq)
                        && t.entries@[k].kind !is File && !hidden_name(base_name(t.paths()[k]))
                        ==> qviews(pending@).contains(t.paths()[k]),
            decreases n - i,
        {
            let ghost pend_prev = qviews(pending@);
            proof {
                assert(t.paths()[i as int] == t.entries@[i as int].path@);
                let ii = t.idx_of(t.paths()[i as int]);
                assert(t.paths()[ii] == t.paths()[i as int]);
                assert(ii == i as int);
                assert(t.kind_of(t.paths()[i as int]) == t.entries@[i as int].kind);
            }
            let par = parent_of(t.entries[i].path.as_str());
            let is_child = crate::strutil::opt_str_eq(&par, d.as_str());
            let name = crate::fs::file_name_of(t.entries[i].path.as_str());
            let hidden = is_hidden_name(name.as_str());
            let phant = phantom_entries.contains(t.entries[i].path.as_str());
            let entry_is_file = match t.entries[i].kind {
                EntryKind::File => true,
                _ => false,
            };
            proof {
                assert(t.entries@[i as int].path@ == t.paths()[i as int]);
                if par is Some {
                    assert(parent_seq(t.paths()[i as int]) == Some(par.unwrap()@));
                    if !is_child {
                        assert(parent_seq(t.paths()[i as int]).unwrap() != dseq);
                    }
                } else {
                    assert(parent_seq(t.paths()[i as int]) is None);
                }
                assert(is_child == (parent_seq(t.paths()[i as int]) == Some(dseq)));
                assert(hidden == hidden_name(base_name(t.paths()[i as int])));
            }
            if is_child && !phant && (entry_is_file || hidden) {
                dirty = true;
                proof {
                    assert(t.entry_disqualifies(phantoms, i as int));
                }
            }
            if is_child && !entry_is_file && !hidden {
                let kind_copy = match t.entries[i].kind {
                    EntryKind::Dir => EntryKind::Dir,
                    _ => EntryKind::UnreadableDir,
                };
                proof {
                    if pend_prev.contains(t.paths()[i as int]) {
                        let k = choose|k: int|
                            0 <= k < pend_prev.len() && pend_prev[k] == t.paths()[i as int];
                        let e = choose|e: int| 0 <= e < i && t.paths()[e] == pend_prev[k];
                        assert(t.paths()[e] == t.paths()[i as int] && e != i as int);
                        assert(false);
                    }
                }
                pending.push(TreeEntry { path: t.entries[i].path.clone(), kind: kind_copy });
                proof {
                    assert(qviews(pending@) =~= pend_prev.push(t.paths()[i as int]));
                    assert(t.kind_of(t.paths()[i as int]) !is File);
                    if t.kind_of(t.paths()[i as int]) is Dir {
                        assert(pending@[pending@.len() - 1].kind is Dir);
                    } else {
                        assert(pending@[pending@.len() - 1].kind is UnreadableDir);
                    }
                    assert forall|k: int|
                        0 <= k < i + 1 && parent_seq(#[trigger] t.paths()[k]) == Some(dseq)
                            && t.entries@[k].kind !is File && !hidden_name(
                            base_name(t.paths()[k]),
                        ) implies qviews(pending@).contains(t.paths()[k]) by {
                        if k < i {
                            let kk = choose|kk: int|
                                0 <= kk < pend_prev.len() && pend_prev[kk] == t.paths()[k];
                            assert(qviews(pending@)[kk] == t.paths()[k]);
                        } else {
                            assert(qviews(pending@)[pending@.len() - 1] == t.paths()[k]);
                        }
                    }
                }
            } else {
                proof {
                    assert forall|k: int|
                        0 <= k < i + 1 && parent_seq(#[trigger] t.paths()[k]) == Some(dseq)
                            && t.entries@[k].kind !is File && !hidden_name(
                            base_name(t.paths()[k]),
                        ) implies qviews(pending@).contains(t.paths()[k]) by {
                        if k < i {
                            let kk = choose|kk: int|
                                0 <= kk < pend_prev.len() && pend_prev[kk] == t.paths()[k];
                            assert(qviews(pending@)[kk] == t.paths()[k]);
                        } else {
                            assert(t.kind_of(t.paths()[k]) == t.entries@[k].kind);
                            assert(false);
                        }
                    }
                }
            }
            i += 1;
        }
        proof {
            assert(dirty == !t.clean_dir(root@, phantoms, dseq)) by {
                if dirty {
                    if !(dseq == root@ || t.kind_of(dseq) is Dir) {
                    } else {
                        let k = choose|k: int|
                            0 <= k < n && parent_seq(#[trigger] t.paths()[k]) == Some(dseq)
                                && t.entry_disqualifies(phantoms, k);
                        assert(!t.clean_dir(root@, phantoms, dseq));
                    }
                } else {
                    assert(dseq == root@ || t.kind_of(dseq) is Dir);
                }
            }
        }
        let ghost before = result.set();
        if dirty {
            // Climb: remove `d` and then each recorded ancestor, stopping as
            // soon as one is already absent.
            let mut cur = d;
            let ghost mut climbed = Set::<Seq<char>>::empty();
            loop
                invariant_except_break
                    is_ancestor_or_self(cur@, dseq),
                    forall|a: Seq<char>|
                        #[trigger] climbed.contains(a) <==> (is_ancestor_or_self(a, dseq)
                            && is_strict_ancestor(cur@, a)),
                    forall|a: Seq<char>|
                        #[trigger] result.set().contains(a) <==> (before.contains(a)
                            && !climbed.contains(a)),
                invariant
                    t.wf(root@),
                    phantoms == phantom_entries.set(),
                    result.inv(),
                    queue_wf(t, root@, old_qs, head as int),
                    head < old_qs.len(),
                    old_qs[head as int] == dseq,
                    result_inv(t, root@, phantoms, old_qs, head as int, before),
                ensures
                    result.inv(),
                    forall|a: Seq<char>|
                        #[trigger] result.set().contains(a) <==> (before.contains(a)
                            && !is_ancestor_or_self(a, dseq)),
                decreases cur@.len(),
            {
                let ghost cur_prev = cur@;
                let removed = result.remove(cur.as_str());
                if !removed {
                    proof {
                        assert(!before.contains(cur@)) by {
                            assert(!is_strict_ancestor(cur@, cur@));
                            assert(!climbed.contains(cur@));
                        }
                        lemma_climb_stop(t, root@, phantoms, old_qs, head as int, before, dseq, cur@);
                        assert forall|a: Seq<char>| #[trigger] result.set().contains(a) <==> (
                            before.contains(a) && !is_ancestor_or_self(a, dseq)) by {
                            if is_ancestor_or_self(a, dseq) && before.contains(a) {
                                if a.len() <= cur@.len() {
                                    crate::fs::lemma_ancestors_chain(a, cur@, dseq);
                                    assert(is_ancestor_or_self(a, cur@));
                                    assert(!before.contains(a));
                                } else {
                                    crate::fs::lemma_ancestors_chain(cur@, a, dseq);
                                    assert(is_ancestor_or_self(cur@, a) && cur@ != a);
                                    assert(climbed.contains(a));
                                }
                            }
                        }
                    }
                    break;
                }
                proof {
                    climbed = climbed.insert(cur@);
                }
                match parent_of(cur.as_str()) {
                    Some(p) => {
                        cur = p;
                        proof {
                            lemma_parent_is_strict_ancestor(cur_prev);
                            lemma_ancestor_transitive(cur@, cur_prev, dseq);
                            assert forall|a: Seq<char>| #[trigger] climbed.contains(a) <==> (
                                is_ancestor_or_self(a, dseq) && is_strict_ancestor(cur@, a)) by {
                                if climbed.contains(a) {
                                    if a == cur_prev {
                                        assert(is_strict_ancestor(cur@, a));
                                    } else {
                                        assert(is_strict_ancestor(cur_prev, a));
                                        lemma_ancestor_transitive(cur@, cur_prev, a);
                                        assert(cur@.len() < cur_prev.len() < a.len());
                                    }
                                } else {
                                    if is_ancestor_or_self(a, dseq) && is_strict_ancestor(
                                        cur@,
                                        a,
                                    ) && a != cur_prev {
                                        if a.len() <= cur_prev.len() {
                                            crate::fs::lemma_ancestors_chain(a, cur_prev, dseq);
                                            assert(is_strict_ancestor(a, cur_prev));
                                            lemma_ancestor_below_parent(a, cur_prev);
                                            assert(is_ancestor_or_self(a, cur@));
                                            assert(a.len() < cur@.len() || a == cur@);
                                            assert(false);
                                        } else {
                                            crate::fs::lemma_ancestors_chain(
                                                cur_prev,
                                                a,
                                                dseq,
                                            );
                                            assert(is_strict_ancestor(cur_prev, a));
                                            assert(climbed.contains(a));
                                            assert(false);
                                        }
                                    }
                                }
                            }
                        }
                    },
                    None => {
                        proof {
                            assert forall|a: Seq<char>| #[trigger] result.set().contains(a) <==> (
                                before.contains(a) && !is_ancestor_or_self(a, dseq)) by {
                                if is_ancestor_or_self(a, dseq) && !climbed.contains(a) && a
                                    != cur@ {
                                    if a.len() <= cur@.len() {
                                        crate::fs::lemma_ancestors_chain(a, cur@, dseq);
                                        assert(is_strict_ancestor(a, cur@));
                                        crate::fs::lemma_last_slash(cur@);
                                        assert(parent_seq(cur@) is Some) by {
                                            assert(cur@[a.len() as int] == '/');
                                            if last_slash(cur@) < 0 {
                                                assert(cur@[a.len() as int] != '/');
                                            }
                                        }
                                        assert(false);
                                    } else {
                                        crate::fs::lemma_ancestors_chain(cur@, a, dseq);
                                        assert(is_strict_ancestor(cur@, a));
                                        assert(climbed.contains(a));
                                        assert(false);
                                    }
                                }
                            }
                        }
                        break;
                    },
                }
            }
        }
        proof {
            // After the optional climb the candidate set matches the state
            // with `d` processed.
            assert(result_inv(t, root@, phantoms, old_qs, head + 1, result.set())) by {
                if dirty {
                    assert forall|p: Seq<char>| #[trigger] result.set().contains(p) implies (
                        old_qs.contains(p) && !dirty_witness(
                        t,
                        root@,
                        phantoms,
                        old_qs,
                        head + 1,
                        p,
                    )) by {
                        assert(before.contains(p));
                        if dirty_witness(t, root@, phantoms, old_qs, head + 1, p) {
                            let j = choose|j: int|
                                0 <= j < head + 1 && !t.clean_dir(
                                    root@,
                                    phantoms,
                                    #[trigger] old_qs[j],
                                ) && is_ancestor_or_self(p, old_qs[j]);
                            if j < head {
                                assert(dirty_witness(t, root@, phantoms, old_qs, head as int, p));
                                assert(false);
                            } else {
                                assert(old_qs[j] == dseq);
                                assert(!is_ancestor_or_self(p, dseq));
                                assert(false);
                            }
                        }
                    }
                    assert forall|p: Seq<char>|
                        old_qs.contains(p) && !dirty_witness(t, root@, phantoms, old_qs, head + 1, p)
                            implies #[trigger] result.set().contains(p) by {
                        assert(!is_ancestor_or_self(p, dseq)) by {
                            if is_ancestor_or_self(p, dseq) {
                                assert(old_qs[head as int] == dseq);
                                assert(!t.clean_dir(root@, phantoms, old_qs[head as int]));
                                assert(dirty_witness(t, root@, phantoms, old_qs, head + 1, p));
                            }
                        }
                        assert(before.contains(p)) by {
                            if dirty_witness(t, root@, phantoms, old_qs, head as int, p) {
                                let j = choose|j: int|
                                    0 <= j < head && !t.clean_dir(
                                        root@,
                                        phantoms,
                                        #[trigger] old_qs[j],
                                    ) && is_ancestor_or_self(p, old_qs[j]);
                                assert(dirty_witness(t, root@, phantoms, old_qs, head + 1, p));
                                assert(false);
                            }
                        }
                    }
                } else {
                    assert forall|p: Seq<char>|
                        dirty_witness(t, root@, phantoms, old_qs, head + 1, p) implies dirty_witness(
                        t,
                        root@,
                        phantoms,
                        old_qs,
                        head as int,
                        p,
                    ) by {
                        let j = choose|j: int|
                            0 <= j < head + 1 && !t.clean_dir(root@, phantoms, #[trigger] old_qs[j])
                                && is_ancestor_or_self(p, old_qs[j]);
                        assert(j != head);
                        assert(0 <= j < head && !t.clean_dir(root@, phantoms, old_qs[j])
                            && is_ancestor_or_self(p, old_qs[j]));
                    }
                    assert forall|p: Seq<char>|
                        dirty_witness(t, root@, phantoms, old_qs, head as int, p) implies dirty_witness(
                        t,
                        root@,
                        phantoms,
                        old_qs,
                        head + 1,
                        p,
                    ) by {
                        let j = choose|j: int|
                            0 <= j < head && !t.clean_dir(root@, phantoms, #[trigger] old_qs[j])
                                && is_ancestor_or_self(p, old_qs[j]);
                        assert(0 <= j < head + 1 && !t.clean_dir(root@, phantoms, old_qs[j])
                            && is_ancestor_or_self(p, old_qs[j]));
                    }
                }
            }
        }
        // Every non-hidden subdirectory becomes a candidate and is queued.
        let m = pending.len();
        let mut k: usize = 0;
        proof {
            assert(qviews(queue@) =~= old_qs + qviews(pending@).take(0));
        }
        while k < m
            invariant
                t.wf(root@),
                phantoms == phantom_entries.set(),
                n == t.paths().len(),
                k <= m,
                m == pending@.len(),
                head < old_qs.len(),
                old_qs[head as int] == dseq,
                queue_wf(t, root@, old_qs, head as int),
                forall|kk: int|
                    0 <= kk < pending@.len() ==> {
                        let q = #[trigger] qviews(pending@)[kk];
                        &&& parent_seq(q) == Some(dseq)
                        &&& t.has_entry(q)
                        &&& t.kind_of(q) == pending@[kk].kind
                        &&& t.kind_of(q) !is File
                        &&& !hidden_name(base_name(q))
                    },
                forall|k1: int, k2: int|
                    0 <= k1 < k2 < pending@.len() ==> qviews(pending@)[k1] != qviews(pending@)[k2],
                qviews(queue@) == old_qs + qviews(pending@).take(k as int),
                queue_wf(t, root@, qviews(queue@), head + 1),
                queue_complete(t, qviews(queue@), head as int),
                queue@[0].kind is Dir,
                forall|i2: int|
                    0 < i2 < queue@.len() ==> t.kind_of(
                        #[trigger] qviews(queue@)[i2],
                    ) == queue@[i2].kind,
                result.inv(),
                result_inv(
                    t,
                    root@,
                    phantoms,
                    qviews(queue@),
                    head + 1,
                    result.set(),
                ),
            decreases m - k,
        {
            let ghost qs_now = qviews(queue@);
            let ghost c = qviews(pending@)[k as int];
            proof {
                // The child is new: it cannot already sit in the queue.
                if qs_now.contains(c) {
                    let ic = choose|ic: int| 0 <= ic < qs_now.len() && qs_now[ic] == c;
                    assert(c != root@) by {
                        let e = t.idx_of(c);
                        assert(t.paths()[e] == c);
                        assert(is_strict_ancestor(root@, c));
                    }
                    let j = choose|j: int|
                        0 <= j < head + 1 && qs_now[j] == parent_seq(qs_now[ic]).unwrap();
                    assert(qs_now[j] == dseq);
                    assert(j < old_qs.len() && old_qs[j] == qs_now[j]);
                    if j < head {
                        assert(old_qs[j] != old_qs[head as int]);
                        assert(false);
                    } else {
                        assert(j == head);
                        if ic < old_qs.len() {
                            let j0 = choose|j0: int|
                                0 <= j0 < head && old_qs[j0] == parent_seq(old_qs[ic]).unwrap();
                            assert(old_qs[j0] == dseq && old_qs[head as int] == dseq);
                            assert(false);
                        } else {
                            let kk = ic - old_qs.len();
                            assert(qviews(pending@).take(k as int)[kk]
                                == c);
                            assert(qviews(pending@)[kk] == c);
                            assert(kk < k as int);
                            assert(false);
                        }
                    }
                }
            }
            let path_clone = pending[k].path.clone();
            let kind_copy = match pending[k].kind {
                EntryKind::Dir => EntryKind::Dir,
                _ => EntryKind::UnreadableDir,
            };
            let ghost rs_prev = result.set();
            result.insert(path_clone.clone());
            queue.push(TreeEntry { path: path_clone, kind: kind_copy });
            proof {
                let qs_next = qviews(queue@);
                assert(qs_next =~= qs_now.push(c));
                assert(qs_next =~= old_qs + qviews(pending@).take(
                    k + 1,
                )) by {
                    assert(qviews(pending@).take(k + 1) =~= qviews(pending@).take(k as int).push(c));
                }
                assert(t.kind_of(c) == kind_copy) by {
                    assert(t.kind_of(c) == pending@[k as int].kind);
                }
                // queue_wf for the grown queue
                assert(queue_wf(t, root@, qs_next, head + 1)) by {
                    assert(qs_next[0] == root@);
                    assert forall|i1: int, j1: int| 0 <= i1 < j1 < qs_next.len() implies (
                        qs_next[i1] != qs_next[j1]) by {
                        if j1 < qs_now.len() {
                        } else {
                            assert(qs_next[j1] == c);
                            assert(!qs_now.contains(c));
                            if qs_next[i1] == c {
                                assert(qs_now[i1] == c);
                                assert(false);
                            }
                        }
                    }
                    assert forall|i1: int|
                        0 <= i1 < qs_next.len() implies (#[trigger] qs_next[i1] == root@ || {
                            &&& t.has_entry(qs_next[i1])
                            &&& t.is_dirlike(qs_next[i1])
                            &&& !hidden_name(base_name(qs_next[i1]))
                            &&& parent_seq(qs_next[i1]) is Some
                            &&& exists|j1: int|
                                0 <= j1 < head + 1 && qs_next[j1] == parent_seq(
                                    qs_next[i1],
                                ).unwrap()
                        }) by {
                        if i1 < qs_now.len() {
                            assert(qs_next[i1] == qs_now[i1]);
                            if qs_now[i1] != root@ {
                                let j1 = choose|j1: int|
                                    0 <= j1 < head + 1 && qs_now[j1] == parent_seq(
                                        qs_now[i1],
                                    ).unwrap();
                                assert(qs_next[j1] == qs_now[j1]);
                            }
                        } else {
                            assert(qs_next[i1] == c);
                            assert(parent_seq(c) == Some(dseq));
                            assert(qs_next[head as int] == dseq);
                        }
                    }
                }
                assert(queue_complete(t, qs_next, head as int)) by {
                    assert forall|j: int, i2: int|
                        0 <= j < head && 0 <= i2 < t.paths().len() && parent_seq(
                            #[trigger] t.paths()[i2],
                        ) == Some(#[trigger] qs_next[j]) && t.entries@[i2].kind !is File
                            && !hidden_name(base_name(t.paths()[i2])) implies qs_next.contains(
                        t.paths()[i2],
                    ) by {
                        assert(qs_next[j] == qs_now[j]);
                        assert(qs_now.contains(t.paths()[i2]));
                        let w = choose|w: int|
                            0 <= w < qs_now.len() && qs_now[w] == t.paths()[i2];
                        assert(qs_next[w] == t.paths()[i2]);
                    }
                }
                // the candidate set keeps matching
                assert(result_inv(t, root@, phantoms, qs_next, head + 1, result.set())) by {
                    assert forall|p: Seq<char>| #[trigger] result.set().contains(p) implies (
                        qs_next.contains(p) && !dirty_witness(
                        t,
                        root@,
                        phantoms,
                        qs_next,
                        head + 1,
                        p,
                    )) by {
                        if p == c {
                            assert(qs_next[qs_next.len() - 1] == c);
                            if dirty_witness(t, root@, phantoms, qs_next, head + 1, p) {
                                let j1 = choose|j1: int|
                                    0 <= j1 < head + 1 && !t.clean_dir(
                                        root@,
                                        phantoms,
                                        #[trigger] qs_next[j1],
                                    ) && is_ancestor_or_self(p, qs_next[j1]);
                                let w = qs_next[j1];
                                assert(is_ancestor_or_self(c, w));
                                assert(qs_now.contains(w)) by {
                                    assert(qs_next[j1] == qs_now[j1]);
                                }
                                if w == c {
                                    assert(false);
                                } else {
                                    lemma_chain_in_queue(t, root@, qs_now, w, c);
                                    assert(qs_now.contains(c) || is_strict_ancestor(c, root@));
                                    if is_strict_ancestor(c, root@) {
                                        let e = t.idx_of(c);
                                        assert(t.paths()[e] == c);
                                        assert(is_strict_ancestor(root@, c));
                                        lemma_ancestor_strict_length(c, root@);
                                        lemma_ancestor_strict_length(root@, c);
                                    }
                                    assert(false);
                                }
                            }
                        } else {
                            assert(result.set().contains(p) == rs_prev.contains(p));
                            assert(qs_now.contains(p) ==> qs_next.contains(p)) by {
                                if qs_now.contains(p) {
                                    let ip = choose|ip: int|
                                        0 <= ip < qs_now.len() && qs_now[ip] == p;
                                    assert(qs_next[ip] == p);
                                }
                            }
                            if dirty_witness(t, root@, phantoms, qs_next, head + 1, p) {
                                let j1 = choose|j1: int|
                                    0 <= j1 < head + 1 && !t.clean_dir(
                                        root@,
                                        phantoms,
                                        #[trigger] qs_next[j1],
                                    ) && is_ancestor_or_self(p, qs_next[j1]);
                                assert(qs_next[j1] == qs_now[j1]);
                                assert(dirty_witness(t, root@, phantoms, qs_now, head + 1, p));
                                assert(false);
                            }
                        }
                    }
                    assert forall|p: Seq<char>|
                        (qs_next.contains(p) && !dirty_witness(
                            t,
                            root@,
                            phantoms,
                            qs_next,
                            head + 1,
                            p,
                        )) implies #[trigger] result.set().contains(p) by {
                        let ip = choose|ip: int| 0 <= ip < qs_next.len() && qs_next[ip] == p;
                        if ip < qs_now.len() {
                            assert(qs_now.contains(p)) by {
                                assert(qs_now[ip] == p);
                            }
                            if dirty_witness(t, root@, phantoms, qs_now, head + 1, p) {
                                let j1 = choose|j1: int|
                                    0 <= j1 < head + 1 && !t.clean_dir(
                                        root@,
                                        phantoms,
                                        #[trigger] qs_now[j1],
                                    ) && is_ancestor_or_self(p, qs_now[j1]);
                                assert(qs_next[j1] == qs_now[j1]);
                                assert(dirty_witness(t, root@, phantoms, qs_next, head + 1, p));
                                assert(false);
                            }
                            assert(rs_prev.contains(p));
                        } else {
                            assert(p == c);
                        }
                    }
                }
            }
            k += 1;
        }
        proof {
            let qs_after = qviews(queue@);
            assert(qviews(pending@).take(m as int) =~= qviews(pending@));
            // completeness now extends to d itself
            assert(queue_complete(t, qs_after, head + 1)) by {
                assert forall|j: int, i2: int|
                    0 <= j < head + 1 && 0 <= i2 < t.paths().len() && parent_seq(
                        #[trigger] t.paths()[i2],
                    ) == Some(#[trigger] qs_after[j]) && t.entries@[i2].kind !is File
                        && !hidden_name(base_name(t.paths()[i2])) implies qs_after.contains(
                    t.paths()[i2],
                ) by {
                    if j < head {
                        assert(qs_after[j] == old_qs[j]);
                        assert(queue_complete(t, qs_after, head as int));
                    } else {
                        assert(qs_after[j] == dseq);
                        assert(qviews(pending@).contains(
                            t.paths()[i2],
                        ));
                        let kk = choose|kk: int|
                            0 <= kk < m && qviews(pending@)[kk]
                                == t.paths()[i2];
                        assert(qs_after[old_qs.len() + kk] == t.paths()[i2]);
                    }
                }
            }
            // the queue cannot outgrow the snapshot
            assert(qs_after.len() <= n + 1) by {
                assert(qs_after.no_duplicates());
                qs_after.unique_seq_to_set();
                t.paths().unique_seq_to_set();
                assert(qs_after.to_set().subset_of(t.paths().to_set().insert(root@))) by {
                    assert forall|p: Seq<char>| qs_after.to_set().contains(p) implies (
                        t.paths().to_set().insert(root@).contains(p)) by {
                        let ip = choose|ip: int| 0 <= ip < qs_after.len() && qs_after[ip] == p;
                        if qs_after[ip] != root@ {
                            let e = t.idx_of(p);
                            assert(t.paths()[e] == p);
                            assert(t.paths().to_set().contains(p));
                        }
                    }
                }
                vstd::set_lib::lemma_len_subset(
                    qs_after.to_set(),
                    t.paths().to_set().insert(root@),
                );
                assert(t.paths().to_set().insert(root@).len() <= n + 1) by {
                    vstd::set::axiom_set_insert_len(t.paths().to_set(), root@);
                }
            }
        }
        head += 1;
    }
    proof {
        let qs = qviews(queue@);
        assert(head as int == qs.len());
        assert forall|p: Seq<char>| #[trigger] result.set().contains(p) implies (
            t.potentially_empty(root@, phantoms, p)) by {
            let ip = choose|ip: int| 0 <= ip < qs.len() && qs[ip] == p;
            lemma_queued_implies_visible(t, root@, qs, qs.len() as int, ip);
            assert forall|q: Seq<char>|
                t.visible_dir(root@, q) && #[trigger] is_ancestor_or_self(p, q) implies (
                t.clean_dir(root@, phantoms, q)) by {
                lemma_visible_implies_queued(t, root@, qs, q);
                let jq = choose|jq: int| 0 <= jq < qs.len() && qs[jq] == q;
                if !t.clean_dir(root@, phantoms, q) {
                    assert(0 <= jq < head && !t.clean_dir(root@, phantoms, qs[jq])
                        && is_ancestor_or_self(p, qs[jq]));
                    assert(dirty_witness(t, root@, phantoms, qs, head as int, p));
                    assert(!result.set().contains(p));
                }
            }
        }
        assert forall|p: Seq<char>| t.potentially_empty(root@, phantoms, p) implies (
            #[trigger] result.set().contains(p)) by {
            lemma_visible_implies_queued(t, root@, qs, p);
            if dirty_witness(t, root@, phantoms, qs, head as int, p) {
                let j = choose|j: int|
                    0 <= j < head && !t.clean_dir(root@, phantoms, #[trigger] qs[j])
                        && is_ancestor_or_self(p, qs[j]);
                lemma_queued_implies_visible(t, root@, qs, qs.len() as int, j);
                assert(t.clean_dir(root@, phantoms, qs[j]));
                assert(false);
            }
        }
    }
    result
}

/// The stop of the climb is sound: once an ancestor is absent from the
/// candidate set, every higher ancestor is absent too.
proof fn lemma_climb_stop(
    t: &Tree,
    root: Seq<char>,
    phantoms: Set<Seq<char>>,
    qs: Seq<Seq<char>>,
    head: int,
    before: Set<Seq<char>>,
    d: Seq<char>,
    cur: Seq<char>,
)
    requires
        t.wf(root),
        queue_wf(t, root, qs, head),
        0 <= head < qs.len(),
        qs[head] == d,
        result_inv(t, root, phantoms, qs, head, before),
        is_ancestor_or_self(cur, d),
        !before.contains(cur),
    ensures
        forall|a: Seq<char>| #[trigger] is_ancestor_or_self(a, cur) ==> !before.contains(a),
{
    assert(qs.contains(d)) by {
        assert(qs[head] == d);
    }
    assert forall|i: int|
        0 <= i < qs.len() implies (#[trigger] qs[i] == root || (parent_seq(qs[i]) is Some
            && qs.contains(parent_seq(qs[i]).unwrap()))) by {
        if qs[i] != root {
            let j = choose|j: int| 0 <= j < head && qs[j] == parent_seq(qs[i]).unwrap();
        }
    }
    lemma_chain_in_queue(t, root, qs, d, cur);
    if qs.contains(cur) {
        // the inventory says why `cur` is out: a dirty processed directory
        // sits at or below it, and that witness also covers every ancestor.
        assert(dirty_witness(t, root, phantoms, qs, head, cur));
        let j = choose|j: int|
            0 <= j < head && !t.clean_dir(root, phantoms, #[trigger] qs[j]) && is_ancestor_or_self(
                cur,
                qs[j],
            );
        assert forall|a: Seq<char>| #[trigger] is_ancestor_or_self(a, cur) implies (
            !before.contains(a)) by {
            lemma_ancestor_transitive(a, cur, qs[j]);
            assert(dirty_witness(t, root, phantoms, qs, head, a));
        }
    } else {
        assert(is_strict_ancestor(cur, root));
        assert forall|a: Seq<char>| #[trigger] is_ancestor_or_self(a, cur) implies (
            !before.contains(a)) by {
            lemma_ancestor_transitive(a, cur, root);
            assert(is_strict_ancestor(a, root));
            if before.contains(a) {
                assert(qs.contains(a));
                let ia = choose|ia: int| 0 <= ia < qs.len() && qs[ia] == a;
                if qs[ia] == root {
                    lemma_ancestor_strict_length(a, root);
                } else {
                    let e = t.idx_of(a);
                    assert(t.paths()[e] == a);
                    assert(is_strict_ancestor(root, a));
                    lemma_ancestor_strict_length(a, root);
                    lemma_ancestor_strict_length(root, a);
                }
                assert(false);
            }
        }
    }
}

/// A strict ancestor is strictly shorter.
proof fn lemma_ancestor_strict_length(a: Seq<char>, b: Seq<char>)
    requires
        is_strict_ancestor(a, b),
    ensures
        a.len() < b.len(),
{
}

/// Emptiness monotonicity: a potentially empty directory passes the
/// property down to every visible directory below it, so an ancestor can
/// never be counted while a descendant is not.
pub proof fn lemma_emptiness_monotone(
    t: &Tree,
    root: Seq<char>,
    phantoms: Set<Seq<char>>,
    d: Seq<char>,
    c: Seq<char>,
)
    requires
        t.wf(root),
        t.potentially_empty(root, phantoms, d),
        t.visible_dir(root, c),
        is_ancestor_or_self(d, c),
    ensures
        t.potentially_empty(root, phantoms, c),
{
    assert forall|q: Seq<char>|
        t.visible_dir(root, q) && #[trigger] is_ancestor_or_self(c, q) implies t.clean_dir(
        root,
        phantoms,
        q,
    ) by {
        lemma_ancestor_transitive(d, c, q);
    }
}


/// How many entries of a run carry the given path.
pub open spec fn path_count(s: Seq<TreeEntry>, q: Seq<char>) -> nat
    decreases s.len(),
{
    if s.len() == 0 {
        0
    } else {
        path_count(s.drop_last(), q) + if s.last().path@ == q {
            1nat
        } else {
            0nat
        }
    }
}

proof fn lemma_path_count_zero(s: Seq<TreeEntry>, q: Seq<char>)
    ensures
        (path_count(s, q) == 0) <==> (forall|i: int| 0 <= i < s.len() ==> (#[trigger] s[i]).path@ != q),
    decreases s.len(),
{
    if s.len() > 0 {
        lemma_path_count_zero(s.drop_last(), q);
        if path_count(s, q) == 0 {
            assert forall|i: int| 0 <= i < s.len() implies (#[trigger] s[i]).path@ != q by {
                if i < s.len() - 1 {
                    assert(s.drop_last()[i] == s[i]);
                }
            }
        } else {
            if s.last().path@ != q {
                let i = choose|i: int| 0 <= i < s.drop_last().len() && s.drop_last()[i].path@ == q;
                assert(s[i].path@ == q);
            }
        }
    }
}

proof fn lemma_path_count_two(s: Seq<TreeEntry>, q: Seq<char>, i: int, j: int)
    requires
        0 <= i < j < s.len(),
        s[i].path@ == q,
        s[j].path@ == q,
    ensures
        path_count(s, q) >= 2,
    decreases s.len(),
{
    if j == s.len() - 1 {
        lemma_path_count_zero(s.drop_last(), q);
        assert(s.drop_last()[i].path@ == q);
        lemma_path_count_one(s.drop_last(), q, i);
    } else {
        assert(s.drop_last()[i].path@ == q);
        assert(s.drop_last()[j].path@ == q);
        lemma_path_count_two(s.drop_last(), q, i, j);
    }
}

proof fn lemma_path_count_one(s: Seq<TreeEntry>, q: Seq<char>, i: int)
    requires
        0 <= i < s.len(),
        s[i].path@ == q,
    ensures
        path_count(s, q) >= 1,
    decreases s.len(),
{
    if i < s.len() - 1 {
        assert(s.drop_last()[i].path@ == q);
        lemma_path_count_one(s.drop_last(), q, i);
    }
}

proof fn lemma_path_count_filter(s: Seq<TreeEntry>, pred: spec_fn(TreeEntry) -> bool, q: Seq<char>)
    ensures
        path_count(s.filter(pred), q) <= path_count(s, q),
        (forall|i: int|
            0 <= i < s.len() && (#[trigger] s[i]).path@ == q ==> pred(s[i])) ==> path_count(
            s.filter(pred),
            q,
        ) == path_count(s, q),
        (forall|i: int|
            0 <= i < s.len() && (#[trigger] s[i]).path@ == q ==> !pred(s[i])) ==> path_count(
            s.filter(pred),
            q,
        ) == 0,
    decreases s.len(),
{
    reveal(Seq::filter);
    if s.len() > 0 {
        lemma_path_count_filter(s.drop_last(), pred, q);
        assert(s[s.len() - 1] == s.last());
        assert forall|i: int|
            0 <= i < s.drop_last().len() implies s.drop_last()[i] == s[i] by {}
        if pred(s.last()) {
            assert(s.filter(pred) == s.drop_last().filter(pred).push(s.last()));
            assert(s.filter(pred).drop_last() =~= s.drop_last().filter(pred));
            assert(s.filter(pred).last() == s.last());
        } else {
            assert(s.filter(pred) == s.drop_last().filter(pred));
        }
    }
}

/// Every element of a filtered run occurs in the source, and everything
/// the predicate keeps occurs in the filtered run.
proof fn lemma_filter_entries(s: Seq<TreeEntry>, pred: spec_fn(TreeEntry) -> bool)
    ensures
        forall|k: int|
            0 <= k < s.filter(pred).len() ==> s.contains(#[trigger] s.filter(pred)[k]) && pred(
                s.filter(pred)[k],
            ),
        forall|i: int| 0 <= i < s.len() && pred(s[i]) ==> s.filter(pred).contains(#[trigger] s[i]),
    decreases s.len(),
{
    reveal(Seq::filter);
    s.filter_lemma(pred);
    if s.len() > 0 {
        lemma_filter_entries(s.drop_last(), pred);
        let f = s.filter(pred);
        let fd = s.drop_last().filter(pred);
        assert forall|k: int| 0 <= k < f.len() implies s.contains(#[trigger] f[k]) && pred(
            f[k],
        ) by {
            if pred(s.last()) && k == f.len() - 1 {
                assert(f[k] == s.last());
                assert(s[s.len() - 1] == s.last());
            } else {
                assert(f[k] == fd[k]);
                assert(s.drop_last().contains(fd[k]));
                let i = choose|i: int| 0 <= i < s.drop_last().len() && s.drop_last()[i] == fd[k];
                assert(s[i] == fd[k]);
            }
        }
    }
}

/// Dry-run equivalence: over the untouched tree with the planned removals
/// as phantoms, the analyzer answers exactly as it does over the tree with
/// those files really gone and no phantoms.  `t2` is `t` without the
/// phantom entries, and every phantom that names an entry names a file.
pub proof fn lemma_dry_run_matches_real(t: &Tree, t2: &Tree, root: Seq<char>, ph: Set<Seq<char>>)
    requires
        t.wf(root),
        t2.entries@ == t.entries@.filter(|e: TreeEntry| !ph.contains(e.path@)),
        forall|i: int|
            0 <= i < t.paths().len() && ph.contains(#[trigger] t.paths()[i]) ==> t.entries@[i].kind
                is File,
    ensures
        t2.wf(root),
        forall|p: Seq<char>|
            #[trigger] t2.potentially_empty(root, Set::<Seq<char>>::empty(), p)
                <==> t.potentially_empty(root, ph, p),
{
    let pred = |e: TreeEntry| !ph.contains(e.path@);
    lemma_filter_entries(t.entries@, pred);
    // membership and kind correspondence
    assert forall|q: Seq<char>| #[trigger] t2.has_entry(q) implies t.has_entry(q)
        && !ph.contains(q) && t2.kind_of(q) == t.kind_of(q) by {
        lemma_entry_correspond(t, t2, root, ph, q);
    }
    assert forall|q: Seq<char>| t.has_entry(q) && !ph.contains(q) implies #[trigger] t2.has_entry(
        q,
    ) by {
        let i = t.idx_of(q);
        assert(t.paths()[i] == q);
        assert(t.entries@[i].path@ == q);
        assert(pred(t.entries@[i]));
        assert(t2.entries@.contains(t.entries@[i]));
        let j = choose|j: int| 0 <= j < t2.entries@.len() && t2.entries@[j] == t.entries@[i];
        assert(t2.paths()[j] == q);
    }
    // well-formedness of the real tree
    assert(t2.wf(root)) by {
        assert forall|i: int|
            0 <= i < t2.paths().len() implies is_strict_ancestor(root, #[trigger] t2.paths()[i]) by {
            assert(t2.paths()[i] == t2.entries@[i].path@);
            assert(t.entries@.contains(t2.entries@[i]));
            let k = choose|k: int| 0 <= k < t.entries@.len() && t.entries@[k] == t2.entries@[i];
            assert(t.paths()[k] == t2.paths()[i]);
        }
        assert forall|i: int, j: int|
            0 <= i < j < t2.paths().len() implies t2.paths()[i] != t2.paths()[j] by {
            if t2.paths()[i] == t2.paths()[j] {
                let q = t2.paths()[i];
                assert(t2.entries@[i].path@ == q && t2.entries@[j].path@ == q);
                lemma_path_count_two(t2.entries@, q, i, j);
                lemma_path_count_filter(t.entries@, pred, q);
                assert(path_count(t.entries@, q) >= 2);
                lemma_unique_path_count(t, root, q);
                assert(false);
            }
        }
        assert forall|i: int| 0 <= i < t2.paths().len() implies {
            let par = parent_seq(#[trigger] t2.paths()[i]);
            &&& par is Some
            &&& (par == Some(root) || {
                &&& t2.has_entry(par.unwrap())
                &&& t2.kind_of(par.unwrap()) is Dir
                &&& !hidden_name(base_name(par.unwrap()))
            })
        } by {
            assert(t.entries@.contains(t2.entries@[i]));
            let k = choose|k: int| 0 <= k < t.entries@.len() && t.entries@[k] == t2.entries@[i];
            assert(t.paths()[k] == t2.paths()[i]);
            let par = parent_seq(t.paths()[k]);
            if par != Some(root) {
                let pq = par.unwrap();
                assert(t.has_entry(pq) && t.kind_of(pq) is Dir);
                assert(!ph.contains(pq)) by {
                    let pi = t.idx_of(pq);
                    assert(t.paths()[pi] == pq);
                    if ph.contains(pq) {
                        assert(t.entries@[pi].kind is File);
                    }
                }
                assert(t2.has_entry(pq));
                lemma_entry_correspond(t, t2, root, ph, pq);
            }
        }
    }
    // visibility agrees
    assert forall|p: Seq<char>| #[trigger] t2.visible_dir(root, p) <==> t.visible_dir(root, p) by {
        lemma_visible_correspond(t, t2, root, ph, p);
    }
    assert forall|p: Seq<char>|
        #[trigger] t2.potentially_empty(root, Set::<Seq<char>>::empty(), p) <==> t.potentially_empty(
        root,
        ph,
        p,
    ) by {
        if t2.potentially_empty(root, Set::<Seq<char>>::empty(), p) {
            assert forall|q: Seq<char>|
                t.visible_dir(root, q) && #[trigger] is_ancestor_or_self(p, q) implies t.clean_dir(
                root,
                ph,
                q,
            ) by {
                lemma_visible_correspond(t, t2, root, ph, q);
                lemma_clean_correspond(t, t2, root, ph, q);
            }
            lemma_visible_correspond(t, t2, root, ph, p);
        }
        if t.potentially_empty(root, ph, p) {
            assert forall|q: Seq<char>|
                t2.visible_dir(root, q) && #[trigger] is_ancestor_or_self(p, q) implies t2.clean_dir(
                root,
                Set::<Seq<char>>::empty(),
                q,
            ) by {
                lemma_visible_correspond(t, t2, root, ph, q);
                assert(t.visible_dir(root, q));
                lemma_clean_correspond(t, t2, root, ph, q);
            }
            lemma_visible_correspond(t, t2, root, ph, p);
        }
    }
}

/// Under well-formedness each path names at most one entry.
proof fn lemma_unique_path_count(t: &Tree, root: Seq<char>, q: Seq<char>)
    requires
        t.wf(root),
    ensures
        path_count(t.entries@, q) <= 1,
{
    if path_count(t.entries@, q) >= 2 {
        lemma_path_count_pair(t.entries@, q);
        let (i, j) = choose|i: int, j: int|
            0 <= i < j < t.entries@.len() && t.entries@[i].path@ == q && t.entries@[j].path@ == q;
        assert(t.paths()[i] == q && t.paths()[j] == q);
        assert(false);
    }
}

/// A count of two or more yields two distinct positions.
proof fn lemma_path_count_pair(s: Seq<TreeEntry>, q: Seq<char>)
    requires
        path_count(s, q) >= 2,
    ensures
        exists|i: int, j: int| 0 <= i < j < s.len() && (#[trigger] s[i]).path@ == q && (#[trigger] s[j]).path@ == q,
    decreases s.len(),
{
    if s.len() > 0 {
        if s.last().path@ == q {
            if path_count(s.drop_last(), q) >= 1 {
                lemma_path_count_some(s.drop_last(), q);
                let i = choose|i: int| 0 <= i < s.drop_last().len() && (#[trigger] s.drop_last()[i]).path@ == q;
                assert(s[i].path@ == q && s[s.len() - 1].path@ == q);
                assert(0 <= i < s.len() - 1 < s.len());
            } else {
                assert(path_count(s, q) <= 1);
            }
        } else {
            lemma_path_count_pair(s.drop_last(), q);
            let (i, j) = choose|i: int, j: int|
                0 <= i < j < s.drop_last().len() && (#[trigger] s.drop_last()[i]).path@ == q && (#[trigger] s.drop_last()[j]).path@ == q;
            assert(s[i].path@ == q && s[j].path@ == q);
        }
    }
}

proof fn lemma_path_count_some(s: Seq<TreeEntry>, q: Seq<char>)
    requires
        path_count(s, q) >= 1,
    ensures
        exists|i: int| 0 <= i < s.len() && (#[trigger] s[i]).path@ == q,
    decreases s.len(),
{
    if s.len() > 0 {
        if s.last().path@ == q {
            assert(s[s.len() - 1].path@ == q);
        } else {
            lemma_path_count_some(s.drop_last(), q);
            let i = choose|i: int| 0 <= i < s.drop_last().len() && (#[trigger] s.drop_last()[i]).path@ == q;
            assert(s[i].path@ == q);
        }
    }
}

/// A surviving path names the same entry in both trees.
proof fn lemma_entry_correspond(t: &Tree, t2: &Tree, root: Seq<char>, ph: Set<Seq<char>>, q: Seq<char>)
    requires
        t.wf(root),
        t2.entries@ == t.entries@.filter(|e: TreeEntry| !ph.contains(e.path@)),
        t2.has_entry(q),
    ensures
        t.has_entry(q),
        !ph.contains(q),
        t2.kind_of(q) == t.kind_of(q),
{
    let pred = |e: TreeEntry| !ph.contains(e.path@);
    lemma_filter_entries(t.entries@, pred);
    let j = t2.idx_of(q);
    assert(t2.paths()[j] == q);
    assert(t2.entries@[j].path@ == q);
    assert(t.entries@.contains(t2.entries@[j]));
    assert(pred(t2.entries@[j]));
    let i = choose|i: int| 0 <= i < t.entries@.len() && t.entries@[i] == t2.entries@[j];
    assert(t.paths()[i] == q);
    let i0 = t.idx_of(q);
    assert(t.paths()[i0] == q);
    assert(i == i0) by {
        if i != i0 {
            assert(t.paths()[i] == t.paths()[i0]);
        }
    }
    assert(t2.kind_of(q) == t2.entries@[j].kind);
    assert(t.kind_of(q) == t.entries@[i0].kind);
}

/// Visibility is unchanged by dropping phantom files.
proof fn lemma_visible_correspond(
    t: &Tree,
    t2: &Tree,
    root: Seq<char>,
    ph: Set<Seq<char>>,
    p: Seq<char>,
)
    requires
        t.wf(root),
        t2.entries@ == t.entries@.filter(|e: TreeEntry| !ph.contains(e.path@)),
        forall|i: int|
            0 <= i < t.paths().len() && ph.contains(#[trigger] t.paths()[i]) ==> t.entries@[i].kind
                is File,
    ensures
        t2.visible_dir(root, p) <==> t.visible_dir(root, p),
    decreases p.len(),
{
    let pred = |e: TreeEntry| !ph.contains(e.path@);
    lemma_filter_entries(t.entries@, pred);
    if p != root && parent_seq(p) is Some {
        lemma_parent_is_strict_ancestor(p);
        lemma_visible_correspond(t, t2, root, ph, parent_seq(p).unwrap());
        if t2.visible_dir(root, p) {
            lemma_entry_correspond(t, t2, root, ph, p);
        }
        if t.visible_dir(root, p) {
            assert(!ph.contains(p)) by {
                let i = t.idx_of(p);
                assert(t.paths()[i] == p);
                if ph.contains(p) {
                    assert(t.entries@[i].kind is File);
                }
            }
            let i = t.idx_of(p);
            assert(t.paths()[i] == p && pred(t.entries@[i]));
            assert(t2.entries@.contains(t.entries@[i]));
            let j = choose|j: int| 0 <= j < t2.entries@.len() && t2.entries@[j] == t.entries@[i];
            assert(t2.paths()[j] == p);
            lemma_entry_correspond(t, t2, root, ph, p);
        }
    }
}

/// Cleanliness with phantoms over the full tree equals cleanliness without
/// phantoms over the thinned tree.
proof fn lemma_clean_correspond(
    t: &Tree,
    t2: &Tree,
    root: Seq<char>,
    ph: Set<Seq<char>>,
    d: Seq<char>,
)
    requires
        t.wf(root),
        t2.entries@ == t.entries@.filter(|e: TreeEntry| !ph.contains(e.path@)),
        forall|i: int|
            0 <= i < t.paths().len() && ph.contains(#[trigger] t.paths()[i]) ==> t.entries@[i].kind
                is File,
        t.visible_dir(root, d),
    ensures
        t2.clean_dir(root, Set::<Seq<char>>::empty(), d) <==> t.clean_dir(root, ph, d),
{
    let pred = |e: TreeEntry| !ph.contains(e.path@);
    lemma_filter_entries(t.entries@, pred);
    // a visible directory exists identically on both sides, so the
    // readability conjunct agrees
    assert((d == root || t2.kind_of(d) is Dir) <==> (d == root || t.kind_of(d) is Dir)) by {
        if d != root {
            assert(t.is_dirlike(d));
            assert(!ph.contains(d)) by {
                let i = t.idx_of(d);
                assert(t.paths()[i] == d);
                if ph.contains(d) {
                    assert(t.entries@[i].kind is File);
                    assert(t.kind_of(d) is File);
                }
            }
            let i = t.idx_of(d);
            assert(t.paths()[i] == d && pred(t.entries@[i]));
            assert(t2.entries@.contains(t.entries@[i]));
            let j = choose|j: int| 0 <= j < t2.entries@.len() && t2.entries@[j] == t.entries@[i];
            assert(t2.paths()[j] == d);
            lemma_entry_correspond(t, t2, root, ph, d);
        }
    }
    // the children conjunct
    if t.clean_dir(root, ph, d) {
        assert forall|j: int|
            0 <= j < t2.paths().len() && parent_seq(#[trigger] t2.paths()[j]) == Some(d)
                implies !t2.entry_disqualifies(Set::<Seq<char>>::empty(), j) by {
            assert(t.entries@.contains(t2.entries@[j]));
            let i = choose|i: int| 0 <= i < t.entries@.len() && t.entries@[i] == t2.entries@[j];
            assert(t.paths()[i] == t2.paths()[j]);
            assert(pred(t2.entries@[j]));
            assert(!ph.contains(t.paths()[i]));
            assert(!t.entry_disqualifies(ph, i));
        }
    }
    if t2.clean_dir(root, Set::<Seq<char>>::empty(), d) {
        assert forall|i: int|
            0 <= i < t.paths().len() && parent_seq(#[trigger] t.paths()[i]) == Some(d)
                implies !t.entry_disqualifies(ph, i) by {
            if !ph.contains(t.paths()[i]) {
                assert(pred(t.entries@[i]));
                assert(t2.entries@.contains(t.entries@[i]));
                let j = choose|j: int|
                    0 <= j < t2.entries@.len() && t2.entries@[j] == t.entries@[i];
                assert(t2.paths()[j] == t.paths()[i]);
                assert(!t2.entry_disqualifies(Set::<Seq<char>>::empty(), j));
            }
        }
    }
}


/// A directory that is visible but not potentially empty stays visible
/// after the potentially empty directories are removed.
proof fn lemma_survivor_visible(
    t1: &Tree,
    t2: &Tree,
    root: Seq<char>,
    s2: Set<Seq<char>>,
    q: Seq<char>,
)
    requires
        t1.wf(root),
        s2 == Set::<Seq<char>>::new(|p: Seq<char>| t1.potentially_empty(root, Set::<Seq<char>>::empty(), p)),
        t2.entries@ == t1.entries@.filter(|e: TreeEntry| !s2.contains(e.path@)),
        t1.visible_dir(root, q),
        !t1.potentially_empty(root, Set::<Seq<char>>::empty(), q),
    ensures
        t2.visible_dir(root, q),
    decreases q.len(),
{
    let pred = |e: TreeEntry| !s2.contains(e.path@);
    lemma_filter_entries(t1.entries@, pred);
    if q != root {
        let par = parent_seq(q).unwrap();
        lemma_parent_is_strict_ancestor(q);
        assert(!t1.potentially_empty(root, Set::<Seq<char>>::empty(), par)) by {
            if t1.potentially_empty(root, Set::<Seq<char>>::empty(), par) {
                lemma_emptiness_monotone(t1, root, Set::<Seq<char>>::empty(), par, q);
            }
        }
        lemma_survivor_visible(t1, t2, root, s2, par);
        let i = t1.idx_of(q);
        assert(t1.paths()[i] == q);
        assert(pred(t1.entries@[i]));
        assert(t2.entries@.contains(t1.entries@[i]));
        let j = choose|j: int| 0 <= j < t2.entries@.len() && t2.entries@[j] == t1.entries@[i];
        assert(t2.paths()[j] == q);
        lemma_entry_correspond(t1, t2, root, s2, q);
    }
}

/// Sweep is idempotent.  After one real run over `t` — the target files
/// (walked, not ignored) moved out, giving `t1`, then the potentially
/// empty directories removed, giving `t2` — a second run finds no target
/// and no removable directory but possibly the root itself.
pub proof fn lemma_sweep_idempotent(
    t: &Tree,
    t1: &Tree,
    t2: &Tree,
    root: Seq<char>,
    ignored: Set<Seq<char>>,
)
    requires
        t.wf(root),
        t1.entries@ == t.entries@.filter(
            |e: TreeEntry| !(t.walk_member(e.path@) && !ignored.contains(e.path@)),
        ),
        t2.entries@ == t1.entries@.filter(
            |e: TreeEntry| !t1.potentially_empty(root, Set::<Seq<char>>::empty(), e.path@),
        ),
    ensures
        forall|p: Seq<char>| #[trigger] t2.walk_member(p) ==> ignored.contains(p),
        forall|p: Seq<char>|
            #[trigger] t2.potentially_empty(root, Set::<Seq<char>>::empty(), p) ==> p == root,
{
    let ph1 = Set::<Seq<char>>::new(|p: Seq<char>| t.walk_member(p) && !ignored.contains(p));
    let pred1 = |e: TreeEntry| !ph1.contains(e.path@);
    assert(t1.entries@ == t.entries@.filter(pred1)) by {
        let given = |e: TreeEntry| !(t.walk_member(e.path@) && !ignored.contains(e.path@));
        assert forall|e: TreeEntry| #[trigger] given(e) == pred1(e) by {}
        assert(given =~~= pred1);
    }
    assert forall|i: int|
        0 <= i < t.paths().len() && ph1.contains(#[trigger] t.paths()[i]) implies t.entries@[i].kind
        is File by {
        assert(t.walk_member(t.paths()[i]));
        let i0 = t.idx_of(t.paths()[i]);
        assert(t.paths()[i0] == t.paths()[i]);
        assert(i0 == i);
    }
    lemma_dry_run_matches_real(t, t1, root, ph1);
    let s2 = Set::<Seq<char>>::new(
        |p: Seq<char>| t1.potentially_empty(root, Set::<Seq<char>>::empty(), p),
    );
    let pred2 = |e: TreeEntry| !s2.contains(e.path@);
    assert(t2.entries@ == t1.entries@.filter(pred2)) by {
        let given = |e: TreeEntry| !t1.potentially_empty(root, Set::<Seq<char>>::empty(), e.path@);
        assert forall|e: TreeEntry| #[trigger] given(e) == pred2(e) by {}
        assert(given =~~= pred2);
    }
    lemma_filter_entries(t1.entries@, pred2);
    lemma_filter_entries(t.entries@, pred1);
    // a file of the final tree survived both passes, so it was ignored
    assert forall|p: Seq<char>| #[trigger] t2.walk_member(p) implies ignored.contains(p) by {
        lemma_entry_correspond(t1, t2, root, s2, p);
        assert(t1.has_entry(p) && t1.kind_of(p) == t2.kind_of(p));
        lemma_entry_correspond(t, t1, root, ph1, p);
        assert(t.has_entry(p) && t.kind_of(p) is File);
        assert(t.walk_member(p));
        assert(!ph1.contains(p));
    }
    // no directory of the final tree can still be potentially empty
    assert forall|p: Seq<char>|
        #[trigger] t2.potentially_empty(root, Set::<Seq<char>>::empty(), p) implies p == root by {
        if p != root {
            assert(t2.visible_dir(root, p));
            lemma_entry_correspond(t1, t2, root, s2, p);
            assert(t1.has_entry(p));
            assert(!s2.contains(p)) by {
                let i = t2.idx_of(p);
                assert(t2.paths()[i] == p);
                assert(t2.entries@[i].path@ == p);
                assert(pred2(t2.entries@[i])) by {
                    assert(t2.entries@.contains(t2.entries@[i]));
                }
            }
            // yet every requirement of emptiness in the middle tree holds
            assert(t1.visible_dir(root, p)) by {
                lemma_visible_correspond_back(t1, t2, root, s2, p);
            }
            assert forall|q: Seq<char>|
                t1.visible_dir(root, q) && #[trigger] is_ancestor_or_self(p, q) implies t1.clean_dir(
                root,
                Set::<Seq<char>>::empty(),
                q,
            ) by {
                if s2.contains(q) {
                    assert(t1.potentially_empty(root, Set::<Seq<char>>::empty(), q));
                    assert(is_ancestor_or_self(q, q));
                } else {
                    lemma_survivor_visible(t1, t2, root, s2, q);
                    assert(t2.clean_dir(root, Set::<Seq<char>>::empty(), q));
                    // readability carries back
                    assert(q == root || t1.kind_of(q) is Dir) by {
                        if q != root {
                            lemma_entry_correspond(t1, t2, root, s2, q);
                        }
                    }
                    assert forall|i: int|
                        0 <= i < t1.paths().len() && parent_seq(#[trigger] t1.paths()[i]) == Some(
                            q,
                        ) implies !t1.entry_disqualifies(Set::<Seq<char>>::empty(), i) by {
                        let c = t1.paths()[i];
                        if s2.contains(c) {
                            // a removed child was itself a visible clean
                            // directory, which never disqualifies
                            assert(t1.potentially_empty(root, Set::<Seq<char>>::empty(), c));
                            assert(t1.visible_dir(root, c));
                            assert(c != root) by {
                                assert(is_strict_ancestor(root, c));
                                lemma_ancestor_strict_length(root, c);
                            }
                            assert(t1.is_dirlike(c) && !hidden_name(base_name(c)));
                            let i0 = t1.idx_of(c);
                            assert(t1.paths()[i0] == c);
                            assert(i0 == i);
                        } else {
                            assert(pred2(t1.entries@[i]));
                            assert(t2.entries@.contains(t1.entries@[i]));
                            let j = choose|j: int|
                                0 <= j < t2.entries@.len() && t2.entries@[j] == t1.entries@[i];
                            assert(t2.paths()[j] == c);
                            assert(!t2.entry_disqualifies(Set::<Seq<char>>::empty(), j));
                        }
                    }
                }
            }
            assert(t1.potentially_empty(root, Set::<Seq<char>>::empty(), p));
            assert(s2.contains(p));
            assert(false);
        }
    }
}

/// Visibility in the thinned tree implies visibility in its source.
proof fn lemma_visible_correspond_back(
    t1: &Tree,
    t2: &Tree,
    root: Seq<char>,
    s2: Set<Seq<char>>,
    p: Seq<char>,
)
    requires
        t1.wf(root),
        t2.entries@ == t1.entries@.filter(|e: TreeEntry| !s2.contains(e.path@)),
        t2.visible_dir(root, p),
    ensures
        t1.visible_dir(root, p),
    decreases p.len(),
{
    if p != root && parent_seq(p) is Some {
        lemma_parent_is_strict_ancestor(p);
        lemma_visible_correspond_back(t1, t2, root, s2, parent_seq(p).unwrap());
        lemma_entry_correspond(t1, t2, root, s2, p);
    }
}

} // verus!
