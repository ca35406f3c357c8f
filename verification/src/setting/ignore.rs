use vstd::prelude::*;

use crate::fs::{needs_cur_dir_prefix, supply_current_dir_prefix};
use crate::pathset::{views, PathSet};

verus! {

/// The path a raw ignore argument stands for: anchored with `./` when it
/// is not already anchored.
pub open spec fn anchored(p: Seq<char>) -> Seq<char> {
    if needs_cur_dir_prefix(p) {
        "./"@ + p
    } else {
        p
    }
}

/// The set of paths the sweep must leave alone.
#[derive(Debug)]
pub struct Ignore {
    entries: PathSet,
}

impl Ignore {
    /// The entries as a set of paths.
    pub closed spec fn set(&self) -> Set<Seq<char>> {
        self.entries.set()
    }

    pub closed spec fn inv(&self) -> bool {
        self.entries.inv()
    }

    /// Wraps an existing collection.
    pub fn _new(entries: PathSet) -> (r: Ignore)
        requires
            entries.inv(),
        ensures
            r.inv(),
            r.set() == entries.set(),
    {
        Ignore { entries }
    }

    /// An empty ignore list.
    pub fn new() -> (r: Ignore)
        ensures
            r.inv(),
            r.set() == Set::<Seq<char>>::empty(),
    {
        Ignore { entries: PathSet::new() }
    }

    /// The recorded paths, in order.
    pub fn entries(&self) -> (r: &PathSet)
        ensures
            r.set() == self.set(),
            r.inv() == self.inv(),
    {
        &self.entries
    }

    /// Records the given paths, each anchored with `./` where needed.  The
    /// caller screens out paths that do not exist on disk.
    pub fn add(self, paths: &Vec<String>) -> (r: Ignore)
        requires
            self.inv(),
            forall|i: int| 0 <= i < paths@.len() ==> (#[trigger] paths@[i])@.len() > 0,
        ensures
            r.inv(),
            forall|q: Seq<char>|
                #[trigger] r.set().contains(q) <==> (self.set().contains(q) || exists|i: int|
                    0 <= i < paths@.len() && q == anchored(#[trigger] views(paths@)[i])),
    {
        let n = paths.len();
        let mut to_add = PathSet::new();
        let mut i: usize = 0;
        while i < n
            invariant
                n == paths@.len(),
                i <= n,
                forall|k: int| 0 <= k < n ==> (#[trigger] paths@[k])@.len() > 0,
                to_add.inv(),
                forall|q: Seq<char>|
                    #[trigger] to_add.set().contains(q) <==> exists|k: int|
                        0 <= k < i && q == anchored(#[trigger] views(paths@)[k]),
            decreases n - i,
        {
            let a = supply_current_dir_prefix(paths[i].as_str());
            to_add.insert(a);
            proof {
                assert forall|q: Seq<char>| #[trigger] to_add.set().contains(q) implies exists|
                    k: int,
                |
                    0 <= k < i + 1 && q == anchored(#[trigger] views(paths@)[k]) by {
                    if q == anchored(views(paths@)[i as int]) {
                        assert(0 <= i < i + 1 && q == anchored(views(paths@)[i as int]));
                    } else {
                        let k = choose|k: int|
                            0 <= k < i && q == anchored(#[trigger] views(paths@)[k]);
                    }
                }
            }
            i += 1;
        }
        let merged = self.entries.union(&to_add);
        proof {
            assert forall|q: Seq<char>| #[trigger] merged.set().contains(q) implies (
                self.set().contains(q) || exists|k: int|
                    0 <= k < n && q == anchored(#[trigger] views(paths@)[k])) by {}
        }
        Ignore { entries: merged }
    }

    /// Forgets the given paths, each anchored the same way.
    pub fn remove(self, paths: &Vec<String>) -> (r: Ignore)
        requires
            self.inv(),
            forall|i: int| 0 <= i < paths@.len() ==> (#[trigger] paths@[i])@.len() > 0,
        ensures
            r.inv(),
            forall|q: Seq<char>|
                #[trigger] r.set().contains(q) <==> (self.set().contains(q) && !exists|i: int|
                    0 <= i < paths@.len() && q == anchored(#[trigger] views(paths@)[i])),
    {
        let n = paths.len();
        let mut to_remove = PathSet::new();
        let mut i: usize = 0;
        while i < n
            invariant
                n == paths@.len(),
                i <= n,
                forall|k: int| 0 <= k < n ==> (#[trigger] paths@[k])@.len() > 0,
                to_remove.inv(),
                forall|q: Seq<char>|
                    #[trigger] to_remove.set().contains(q) <==> exists|k: int|
                        0 <= k < i && q == anchored(#[trigger] views(paths@)[k]),
            decreases n - i,
        {
            let a = supply_current_dir_prefix(paths[i].as_str());
            to_remove.insert(a);
            proof {
                assert forall|q: Seq<char>| #[trigger] to_remove.set().contains(q) implies exists|
                    k: int,
                |
                    0 <= k < i + 1 && q == anchored(#[trigger] views(paths@)[k]) by {
                    if q == anchored(views(paths@)[i as int]) {
                        assert(0 <= i < i + 1 && q == anchored(views(paths@)[i as int]));
                    } else {
                        let k = choose|k: int|
                            0 <= k < i && q == anchored(#[trigger] views(paths@)[k]);
                    }
                }
            }
            i += 1;
        }
        let kept = self.entries.difference(&to_remove);
        Ignore { entries: kept }
    }
}

/// The file text of a list of entries: each on its own line.
pub open spec fn entries_lines(es: Seq<String>) -> Seq<char>
    decreases es.len(),
{
    if es.len() == 0 {
        Seq::empty()
    } else {
        entries_lines(es.drop_last()) + es.last()@ + "\n"@
    }
}

/// Renders a list of entries as file lines.
pub fn render_lines(es: &Vec<String>) -> (r: String)
    ensures
        r@ == entries_lines(es@),
{
    let n = es.len();
    let mut r = String::new();
    let mut i: usize = 0;
    proof {
        assert(es@.take(0) =~= Seq::<String>::empty());
    }
    while i < n
        invariant
            n == es@.len(),
            i <= n,
            r@ == entries_lines(es@.take(i as int)),
        decreases n - i,
    {
        proof {
            assert(es@.take(i + 1).drop_last() =~= es@.take(i as int));
            assert(es@.take(i + 1).last() == es@[i as int]);
        }
        r.append(es[i].as_str());
        r.append("\n");
        i += 1;
    }
    proof {
        assert(es@.take(n as int) =~= es@);
    }
    r
}

/// The value is one of the listed entries, flagged as a directory.
pub open spec fn listed_dir(entries: Seq<String>, flags: Seq<bool>, v: String) -> bool {
    exists|j: int| 0 <= j < entries.len() && v == #[trigger] entries[j] && flags[j]
}

/// The value is one of the listed entries, flagged as a file.
pub open spec fn listed_file(entries: Seq<String>, flags: Seq<bool>, v: String) -> bool {
    exists|j: int| 0 <= j < entries.len() && v == #[trigger] entries[j] && !flags[j]
}

/// Splits the entries for writing: directories first, then the files that
/// no listed directory already covers.
pub fn partition_for_file(entries: &Vec<String>, is_dir: &Vec<bool>) -> (r: (Vec<String>, Vec<
    String,
>))
    requires
        entries@.len() == is_dir@.len(),
    ensures
        forall|k: int|
            0 <= k < r.0@.len() ==> listed_dir(entries@, is_dir@, #[trigger] r.0@[k]),
        forall|k: int|
            0 <= k < r.1@.len() ==> listed_file(entries@, is_dir@, #[trigger] r.1@[k]),
{
    let n = entries.len();
    let mut dirs: Vec<String> = Vec::new();
    let mut files: Vec<String> = Vec::new();
    let mut i: usize = 0;
    while i < n
        invariant
            n == entries@.len(),
            n == is_dir@.len(),
            i <= n,
            forall|k: int|
                0 <= k < dirs@.len() ==> listed_dir(entries@, is_dir@, #[trigger] dirs@[k]),
            forall|k: int|
                0 <= k < files@.len() ==> listed_file(entries@, is_dir@, #[trigger] files@[k]),
        decreases n - i,
    {
        let ghost dirs_prev = dirs@;
        let ghost files_prev = files@;
        if is_dir[i] {
            dirs.push(entries[i].clone());
            proof {
                assert forall|k: int| 0 <= k < dirs@.len() implies listed_dir(
                    entries@,
                    is_dir@,
                    #[trigger] dirs@[k],
                ) by {
                    if k < dirs_prev.len() {
                        assert(dirs@[k] == dirs_prev[k]);
                    } else {
                        assert(dirs@[k] == entries@[i as int]);
                        assert(is_dir@[i as int]);
                    }
                }
            }
        } else {
            let m = dirs.len();
            let mut covered = false;
            let mut d: usize = 0;
            while d < m
                invariant
                    n == entries@.len(),
                    i < n,
                    d <= m,
                    m == dirs@.len(),
                decreases m - d,
            {
                if crate::strutil::str_starts_with(entries[i].as_str(), dirs[d].as_str()) {
                    covered = true;
                }
                d += 1;
            }
            if !covered {
                files.push(entries[i].clone());
                proof {
                    assert forall|k: int| 0 <= k < files@.len() implies listed_file(
                        entries@,
                        is_dir@,
                        #[trigger] files@[k],
                    ) by {
                        if k < files_prev.len() {
                            assert(files@[k] == files_prev[k]);
                        } else {
                            assert(files@[k] == entries@[i as int]);
                            assert(!is_dir@[i as int]);
                        }
                    }
                }
            }
        }
        i += 1;
    }
    (dirs, files)
}

} // verus!
