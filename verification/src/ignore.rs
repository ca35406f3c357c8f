use vstd::prelude::*;

use crate::pathset::{views, PathSet};
use crate::setting::ignore::anchored;

verus! {

/// An earlier shape of the ignore list: a set of file paths only.
#[derive(Debug)]
pub struct Ignore {
    files: PathSet,
}

impl Ignore {
    pub closed spec fn set(&self) -> Set<Seq<char>> {
        self.files.set()
    }

    pub closed spec fn seq(&self) -> Seq<Seq<char>> {
        self.files.seq()
    }

    pub closed spec fn inv(&self) -> bool {
        self.files.inv()
    }

    pub fn new(files: PathSet) -> (r: Ignore)
        requires
            files.inv(),
        ensures
            r.inv(),
            r.set() == files.set(),
    {
        Ignore { files }
    }

    /// The recorded paths.
    pub fn files(&self) -> (r: &PathSet)
        ensures
            r.set() == self.set(),
            r.inv() == self.inv(),
    {
        &self.files
    }

    /// The file text of the list: one path per line.
    pub fn to_string(&self) -> (r: String)
        ensures
            r@ == ignore_lines(self.seq()),
    {
        let n = self.files.len();
        let mut r = String::new();
        let mut i: usize = 0;
        proof {
            assert(self.files.seq().take(0) =~= Seq::<Seq<char>>::empty());
        }
        while i < n
            invariant
                n == self.files.seq().len(),
                i <= n,
                r@ == ignore_lines(self.files.seq().take(i as int)),
            decreases n - i,
        {
            proof {
                assert(self.files.seq().take(i + 1).drop_last() =~= self.files.seq().take(
                    i as int,
                ));
                assert(self.files.seq().take(i + 1).last() == self.files.seq()[i as int]);
            }
            r.append(self.files.get(i).as_str());
            r.append("\n");
            i += 1;
        }
        proof {
            assert(self.files.seq().take(n as int) =~= self.files.seq());
        }
        r
    }

    /// Records the given file paths, anchored with `./` where needed.  The
    /// caller screens out paths that are not plain files on disk.
    pub fn add(self, paths: &Vec<String>) -> (r: Ignore)
        requires
            self.inv(),
            forall|i: int| 0 <= i < paths@.len() ==> (#[trigger] paths@[i])@.len() > 0,
        ensures
            r.inv(),
            forall|q: Seq<char>|
                #[trigger] r.set().contains(q) <==> (self.set().contains(q) || exists|i: int|
                    0 <= i < paths@.len() && q == anchored(#[trigger] views(paths@)[i])),
    {
        let inner = crate::setting::ignore::Ignore::_new(self.files);
        let merged = inner.add(paths);
        Ignore { files: merged.entries().duplicate() }
    }

    /// Forgets the given paths, anchored the same way.
    pub fn remove(self, paths: &Vec<String>) -> (r: Ignore)
        requires
            self.inv(),
            forall|i: int| 0 <= i < paths@.len() ==> (#[trigger] paths@[i])@.len() > 0,
        ensures
            r.inv(),
            forall|q: Seq<char>|
                #[trigger] r.set().contains(q) <==> (self.set().contains(q) && !exists|i: int|
                    0 <= i < paths@.len() && q == anchored(#[trigger] views(paths@)[i])),
    {
        let inner = crate::setting::ignore::Ignore::_new(self.files);
        let kept = inner.remove(paths);
        Ignore { files: kept.entries().duplicate() }
    }
}

/// The file text of a list of paths: each on its own line.
pub open spec fn ignore_lines(es: Seq<Seq<char>>) -> Seq<char>
    decreases es.len(),
{
    if es.len() == 0 {
        Seq::empty()
    } else {
        ignore_lines(es.drop_last()) + es.last() + "\n"@
    }
}

} // verus!
