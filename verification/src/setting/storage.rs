use vstd::prelude::*;

use crate::dates::{
    date_name, date_name_format, date_of_name, expired, format_date, is_expired, local_now,
    max_unit_count, parse_date, ClockTime, Duration,
};
use crate::fs::{base_name, is_strict_ancestor, parent_seq};
use crate::pathset::PathSet;

verus! {

/// The fixed path of the warehouse, under the tool's working directory.
pub open spec fn storage_dir_seq() -> Seq<char> {
    ".kic/warehouse"@
}

/// The text of one per-item log line: the path, quoted, behind an arrow.
pub open spec fn item_log_line(p: Seq<char>) -> Seq<char> {
    "  => \""@ + p + "\""@
}

/// Where a relocated entry's directory lands inside a box of the given
/// date.  The run mode plays no part in this.
pub open spec fn move_dest_dir(date: Seq<char>, p: Seq<char>) -> Seq<char> {
    storage_dir_seq() + "/"@ + date + "/dusts"@ + "/"@ + parent_seq(p).unwrap()
}

/// Where a relocated entry itself lands.
pub open spec fn move_dest(date: Seq<char>, p: Seq<char>) -> Seq<char> {
    move_dest_dir(date, p) + "/"@ + base_name(p)
}

/// Dry-run equivalence: the planned relocations, and with them the log
/// lines, are a function of the box date and the target paths alone; two
/// runs over the same tree state plan the same work and log the same items
/// whether or not they touch the disk.
pub proof fn lemma_sweep_plan_mode_blind(a: &Storage, b: &Storage, p: Seq<char>)
    requires
        a.date@ == b.date@,
    ensures
        move_dest_dir(a.date@, p) == move_dest_dir(b.date@, p),
        move_dest(a.date@, p) == move_dest(b.date@, p),
{
}

/// A box name is ripe for deletion: it parses as a date whose moratorium has
/// passed.
pub open spec fn box_expired(name: Seq<char>, moratorium: Duration, now: ClockTime) -> bool {
    &&& date_name_format(name)
    &&& date_of_name(name).valid()
    &&& expired(date_of_name(name), moratorium, now)
}

/// One planned relocation: rename `src` to `dest`, creating `dest_dir`
/// first.
pub struct MoveAction {
    pub src: String,
    pub dest_dir: String,
    pub dest: String,
}

/// One run's handle on the warehouse: the moment the run started, the box
/// date derived from it, the log file name, and whether changes are real.
pub struct Storage {
    pub now: ClockTime,
    pub date: String,
    pub log_file: String,
    pub indeed: bool,
}

impl Storage {
    /// A storage handle is coherent: the clock reading is a valid in-range
    /// date and the box name renders it.
    pub open spec fn wf(&self) -> bool {
        &&& self.now.valid()
        &&& 0 <= self.now.year <= 9999
        &&& self.date@ == date_name(self.now.date())
    }

    /// The warehouse directory, relative to the working tree.
    pub fn path() -> (r: String)
        ensures
            r@ == storage_dir_seq(),
    {
        ".kic/warehouse".to_owned()
    }

    /// A handle for a run starting at the given moment.
    pub fn new_at(now: ClockTime, file_name: &str, indeed: bool) -> (r: Storage)
        requires
            now.valid(),
            0 <= now.year <= 9999,
        ensures
            r.wf(),
            r.now == now,
            r.log_file@ == file_name@ + ".log"@,
            r.indeed == indeed,
    {
        let date = format_date(&crate::dates::Date { year: now.year, month: now.month, day: now.day });
        let mut log_file = file_name.to_owned();
        log_file.append(".log");
        Storage { now, date, log_file, indeed }
    }

    /// A handle for a run starting now.  `None` only when the wall clock
    /// reports a year outside the box-name range.
    pub fn new(file_name: &str, indeed: bool) -> (r: Option<Storage>)
        ensures
            r is Some ==> {
                &&& r.unwrap().wf()
                &&& r.unwrap().log_file@ == file_name@ + ".log"@
                &&& r.unwrap().indeed == indeed
            },
    {
        let now = local_now();
        if now.year < 0 || now.year > 9999 {
            return None;
        }
        Some(Self::new_at(now, file_name, indeed))
    }

    /// The dated box of this run.
    pub fn path_to_box(&self) -> (r: String)
        ensures
            r@ == storage_dir_seq() + "/"@ + self.date@,
    {
        let mut r = Self::path();
        r.append("/");
        r.append(self.date.as_str());
        r
    }

    /// Where relocated entries go inside the box.
    pub fn path_to_dust_box(&self) -> (r: String)
        ensures
            r@ == storage_dir_seq() + "/"@ + self.date@ + "/dusts"@,
    {
        let mut r = self.path_to_box();
        r.append("/dusts");
        r
    }

    /// The operation log of this run.
    pub fn path_to_log(&self) -> (r: String)
        ensures
            r@ == storage_dir_seq() + "/"@ + self.date@ + "/"@ + self.log_file@,
    {
        let mut r = self.path_to_box();
        r.append("/");
        r.append(self.log_file.as_str());
        r
    }

    /// The framed timestamp that opens each log.
    pub fn start_mark_for_log(&self) -> (r: String)
        requires
            self.wf(),
        ensures
            r@ == "############\n# "@ + clock_mark(self.now) + " #\n############"@,
    {
        let mut r = "############\n# ".to_owned();
        push_two_digits(&mut r, self.now.hour);
        r.append(":");
        push_two_digits(&mut r, self.now.minute);
        r.append(":");
        push_two_digits(&mut r, self.now.second);
        r.append(" #\n############");
        proof {
            reveal_strlit(":");
            assert(r@ =~= "############\n# "@ + clock_mark(self.now) + " #\n############"@);
        }
        r
    }

    /// Plans the relocation of the target files into the dust box: one move
    /// and one log line per target, in the targets' own order.  The log
    /// lines depend on the targets alone, never on the run mode.
    pub fn squeeze_dusts(&self, paths_to_dust: &PathSet) -> (r: Vec<MoveAction>)
        requires
            forall|i: int|
                0 <= i < paths_to_dust.seq().len() ==> parent_seq(
                    #[trigger] paths_to_dust.seq()[i],
                ) is Some,
        ensures
            r@.len() == paths_to_dust.seq().len(),
            forall|i: int|
                0 <= i < r@.len() ==> {
                    let p = paths_to_dust.seq()[i];
                    &&& (#[trigger] r@[i]).src@ == p
                    &&& r@[i].dest_dir@ == move_dest_dir(self.date@, p)
                    &&& r@[i].dest@ == move_dest(self.date@, p)
                },
    {
        let dust_box = self.path_to_dust_box();
        let n = paths_to_dust.len();
        let mut out: Vec<MoveAction> = Vec::new();
        let mut i: usize = 0;
        while i < n
            invariant
                n == paths_to_dust.seq().len(),
                i <= n,
                dust_box@ == storage_dir_seq() + "/"@ + self.date@ + "/dusts"@,
                forall|k: int|
                    0 <= k < paths_to_dust.seq().len() ==> parent_seq(
                        #[trigger] paths_to_dust.seq()[k],
                    ) is Some,
                out@.len() == i,
                forall|k: int|
                    0 <= k < i ==> {
                        let p = paths_to_dust.seq()[k];
                        &&& (#[trigger] out@[k]).src@ == p
                        &&& out@[k].dest_dir@ == dust_box@ + "/"@ + parent_seq(p).unwrap()
                        &&& out@[k].dest@ == out@[k].dest_dir@ + "/"@ + base_name(p)
                    },
            decreases n - i,
        {
            let p = paths_to_dust.get(i);
            let src = p.clone();
            let parent = match crate::fs::parent_of(p.as_str()) {
                Some(q) => q,
                None => {
                    proof {
                        assert(false);
                    }
                    String::new()
                },
            };
            let name = crate::fs::file_name_of(p.as_str());
            let mut dest_dir = dust_box.clone();
            dest_dir.append("/");
            dest_dir.append(parent.as_str());
            let mut dest = dest_dir.clone();
            dest.append("/");
            dest.append(name.as_str());
            out.push(MoveAction { src, dest_dir, dest });
            i += 1;
        }
        out
    }

    /// Plans the removal of the potentially empty directories: the same
    /// directories in reverse lexicographic order.  An ancestor is a strict
    /// prefix of its descendants and so precedes them lexicographically;
    /// reversing therefore handles every directory strictly before any of
    /// its ancestors, the order the removals need.
    pub fn squeeze_empty_dirs_only(&self, paths_to_dir: &PathSet) -> (r: Vec<String>)
        requires
            paths_to_dir.inv(),
        ensures
            r@.len() == paths_to_dir.seq().len(),
            forall|k: int|
                0 <= k < r@.len() ==> (#[trigger] r@[k])@ == paths_to_dir.seq()[r@.len() - 1 - k],
            forall|i: int, j: int|
                0 <= i < r@.len() && 0 <= j < r@.len() && is_strict_ancestor(r@[i]@, r@[j]@)
                    ==> j < i,
    {
        let n = paths_to_dir.len();
        let mut out: Vec<String> = Vec::new();
        let mut i: usize = 0;
        while i < n
            invariant
                n == paths_to_dir.seq().len(),
                i <= n,
                out@.len() == i,
                forall|k: int|
                    0 <= k < i ==> (#[trigger] out@[k])@ == paths_to_dir.seq()[n - 1 - k],
            decreases n - i,
        {
            out.push(paths_to_dir.get(n - 1 - i).clone());
            i += 1;
        }
        proof {
            paths_to_dir.lemma_sorted();
            assert forall|i1: int, j1: int|
                0 <= i1 < out@.len() && 0 <= j1 < out@.len() && is_strict_ancestor(
                    out@[i1]@,
                    out@[j1]@,
                ) implies j1 < i1 by {
                crate::strutil::lemma_prefix_seq_lt(out@[i1]@, out@[j1]@);
                if j1 >= i1 {
                    if j1 == i1 {
                        crate::strutil::lemma_seq_lt_irreflexive(out@[i1]@);
                    } else {
                        let a = n - 1 - i1;
                        let b = n - 1 - j1;
                        assert(b < a);
                        assert(crate::strutil::seq_lt(
                            paths_to_dir.seq()[b],
                            paths_to_dir.seq()[a],
                        ));
                        crate::strutil::lemma_seq_lt_asymmetric(out@[j1]@, out@[i1]@);
                    }
                }
            }
        }
        out
    }

    /// Picks the expired boxes among the warehouse's entries: exactly those
    /// names that parse as a date older than the moratorium allows, in the
    /// order given.
    pub fn delete_expired_boxes(&self, box_names: &Vec<String>, moratorium: &Duration) -> (r: Vec<
        String,
    >)
        requires
            self.wf(),
            0 <= moratorium.seconds <= max_unit_count() * 604800,
        ensures
            crate::pathset::views(r@) == crate::pathset::views(box_names@).filter(
                |p: Seq<char>| box_expired(p, *moratorium, self.now),
            ),
    {
        let ghost pred = |p: Seq<char>| box_expired(p, *moratorium, self.now);
        let n = box_names.len();
        let mut out: Vec<String> = Vec::new();
        let mut i: usize = 0;
        proof {
            reveal(Seq::filter);
            assert(crate::pathset::views(box_names@).take(0) =~= Seq::<Seq<char>>::empty());
            assert(crate::pathset::views(out@) =~= crate::pathset::views(box_names@).take(
                0,
            ).filter(pred));
        }
        while i < n
            invariant
                self.wf(),
                n == box_names@.len(),
                i <= n,
                0 <= moratorium.seconds <= max_unit_count() * 604800,
                pred == (|p: Seq<char>| box_expired(p, *moratorium, self.now)),
                crate::pathset::views(out@) == crate::pathset::views(box_names@).take(
                    i as int,
                ).filter(pred),
            decreases n - i,
        {
            let ghost prev = crate::pathset::views(out@);
            proof {
                reveal(Seq::filter);
                assert(crate::pathset::views(box_names@).take(i + 1).drop_last()
                    =~= crate::pathset::views(box_names@).take(i as int));
                assert(crate::pathset::views(box_names@).take(i + 1).last() == box_names@[i as int]@);
            }
            let name = &box_names[i];
            let take = match parse_date(name.as_str()) {
                Some(d) => is_expired(&d, moratorium, &self.now),
                None => false,
            };
            if take {
                out.push(name.clone());
                proof {
                    assert(crate::pathset::views(out@) =~= prev.push(box_names@[i as int]@));
                }
            }
            i += 1;
        }
        proof {
            assert(crate::pathset::views(box_names@).take(n as int) =~= crate::pathset::views(
                box_names@,
            ));
        }
        out
    }

    /// The run-mode suffix a dry run appends to its headers.
    pub fn mode_suffix(&self) -> (r: &'static str)
        ensures
            r@ == if self.indeed {
                Seq::<char>::empty()
            } else {
                " (dry-run mode)"@
            },
    {
        proof {
            reveal_strlit("");
        }
        if self.indeed {
            proof {
                assert(""@ =~= Seq::<char>::empty());
            }
            ""
        } else {
            " (dry-run mode)"
        }
    }

    /// The header line of the relocation step of a sweep.
    pub fn move_dusts_header(&self) -> (r: String)
        ensures
            r@ == "Move dusts to \""@ + storage_dir_seq() + "/"@ + self.date@ + "/dusts"@
                + "\""@ + (if self.indeed {
                Seq::<char>::empty()
            } else {
                " (dry-run mode)"@
            }),
    {
        let mut r = "Move dusts to \"".to_owned();
        r.append(self.path_to_dust_box().as_str());
        r.append("\"");
        r.append(self.mode_suffix());
        r
    }

    /// The header line of the directory step of a sweep.
    pub fn move_empty_dirs_header(&self) -> (r: String)
        ensures
            r@ == "Move empty dirs to \""@ + storage_dir_seq() + "/"@ + self.date@ + "/dusts"@
                + "\""@ + (if self.indeed {
                Seq::<char>::empty()
            } else {
                " (dry-run mode)"@
            }),
    {
        let mut r = "Move empty dirs to \"".to_owned();
        r.append(self.path_to_dust_box().as_str());
        r.append("\"");
        r.append(self.mode_suffix());
        r
    }

    /// The header line of a burn.
    pub fn delete_expired_header(&self) -> (r: String)
        ensures
            r@ == "Delete expired dusts"@ + (if self.indeed {
                Seq::<char>::empty()
            } else {
                " (dry-run mode)"@
            }),
    {
        let mut r = "Delete expired dusts".to_owned();
        r.append(self.mode_suffix());
        r
    }

    /// The per-item log line for one planned relocation or removal.
    pub fn item_log(path: &str) -> (r: String)
        ensures
            r@ == item_log_line(path@),
    {
        let mut r = "  => \"".to_owned();
        r.append(path);
        r.append("\"");
        r
    }
}

/// The `HH:MM:SS` rendering of a clock reading.
pub open spec fn clock_mark(c: ClockTime) -> Seq<char> {
    two_digits(c.hour as int) + ":"@ + two_digits(c.minute as int) + ":"@ + two_digits(
        c.second as int,
    )
}

/// Two zero-padded decimal digits.
pub open spec fn two_digits(v: int) -> Seq<char> {
    seq![crate::dates::digit_char(v / 10 % 10), crate::dates::digit_char(v % 10)]
}

/// Appends a two-digit zero-padded number.
fn push_two_digits(out: &mut String, v: i64)
    requires
        0 <= v < 100,
    ensures
        final(out)@ == old(out)@ + two_digits(v as int),
{
    let ghost prev = out@;
    crate::dates::push_digit(out, v / 10 % 10);
    crate::dates::push_digit(out, v % 10);
    proof {
        assert(out@ =~= prev + two_digits(v as int));
    }
}

} // verus!
