use vstd::prelude::*;

use crate::error::CliError;
use crate::pathset::{views, PathSet};
use crate::strutil::{is_space, is_space_char};

verus! {

/// Whether a pattern is a regular expression that the regex engine
/// accepts.  Named, because spelling out the engine's grammar is neither
/// possible nor useful here.
pub uninterp spec fn regex_ok(pattern: Seq<char>) -> bool;

/// What replacing every match of `pattern` in `text` with nothing leaves.
/// The engine is deterministic, so this is a function of the two texts.
pub uninterp spec fn regex_strip(pattern: Seq<char>, text: Seq<char>) -> Seq<char>;

/// The list of captures of the named group over every match of `pattern`
/// in `text`, in match order.
pub uninterp spec fn regex_capture_list(
    pattern: Seq<char>,
    group: Seq<char>,
    text: Seq<char>,
) -> Seq<Seq<char>>;

/// Deletes every match of a pattern from a text.
///
/// Relies on `regex::Regex::new`, which accepts exactly the patterns the
/// engine can compile, and `Regex::replace_all` with an empty replacement,
/// which removes every non-overlapping match; both depend only on their
/// text arguments.
#[verifier::external_body]
fn regex_remove_all(pattern: &str, text: &str) -> (r: Result<String, regex::Error>)
    ensures
        r is Ok <==> regex_ok(pattern@),
        r is Ok ==> r.unwrap()@ == regex_strip(pattern@, text@),
{
    let re = regex::Regex::new(pattern)?;
    Ok(re.replace_all(text, "").into_owned())
}

/// Collects one named group from every match of a pattern.
///
/// Relies on `regex::Regex::new` and `Regex::captures_iter`, which yields
/// the non-overlapping matches in order; both depend only on their text
/// arguments.
#[verifier::external_body]
fn regex_capture_group(pattern: &str, group: &str, text: &str) -> (r: Result<
    Vec<String>,
    regex::Error,
>)
    ensures
        r is Ok <==> regex_ok(pattern@),
        r is Ok ==> views(r.unwrap()@) == regex_capture_list(pattern@, group@, text@),
{
    let re = regex::Regex::new(pattern)?;
    let mut out: Vec<String> = Vec::new();
    for caps in re.captures_iter(text) {
        if let Some(m) = caps.name(group) {
            out.push(m.as_str().to_owned());
        }
    }
    Ok(out)
}

/// Whether the tool's working directory sits under the given path.
///
/// Relies on `std::path::Path::is_dir`; the answer depends on the disk, so
/// nothing is promised of it.
#[verifier::external_body]
fn working_dir_exists_under(path: &str) -> bool {
    std::path::Path::new(path).join(".kic").is_dir()
}

/// The cron line that runs the patrol every midnight.
pub open spec fn patrol_line(exe: Seq<char>) -> Seq<char> {
    "0 0 * * *\t"@ + exe + " patrol\n"@
}

/// The framed comment around this tool's region of the cron table.
pub open spec fn base_mark_text(keyword: Seq<char>, exec_part: Seq<char>) -> Seq<char> {
    "###################################\n# \"kic\" uses the lines "@ + keyword
        + ".\n# Please don't touch them and me!\n###################################\n"@
        + exec_part
}

pub open spec fn start_mark_text(exe: Seq<char>) -> Seq<char> {
    base_mark_text("from this"@, patrol_line(exe))
}

pub open spec fn end_mark_text() -> Seq<char> {
    base_mark_text("up to here"@, ""@)
}

/// The line-deleting pattern: any line that changes into `dir` and runs
/// `bin`.
pub open spec fn missing_dir_pattern(core: Seq<char>, bin: Seq<char>) -> Seq<char> {
    ".*cd\\s+"@ + core + "\\s+&&\\s+"@ + bin + ".*\n"@
}

/// This tool's region of the cron table: the text above it, the lines it
/// owns, and the text below.
#[derive(Debug)]
pub struct Cron {
    pub bin: String,
    pub upper: String,
    pub my_area: String,
    pub lower: String,
}

impl Cron {
    /// Renders the patrol schedule line.
    pub fn patrol(current_exe: &str) -> (r: String)
        ensures
            r@ == patrol_line(current_exe@),
    {
        let mut r = "0 0 * * *\t".to_owned();
        r.append(current_exe);
        r.append(" patrol\n");
        r
    }

    /// Renders the framed comment around the region.
    pub fn base_mark(keyword: &str, exec_part: &str) -> (r: String)
        ensures
            r@ == base_mark_text(keyword@, exec_part@),
    {
        let mut r = "###################################\n# \"kic\" uses the lines ".to_owned();
        r.append(keyword);
        r.append(".\n# Please don't touch them and me!\n###################################\n");
        r.append(exec_part);
        r
    }

    /// The comment that opens the region.
    pub fn start_mark(current_exe: &str) -> (r: String)
        ensures
            r@ == start_mark_text(current_exe@),
    {
        let p = Self::patrol(current_exe);
        Self::base_mark("from this", p.as_str())
    }

    /// The comment that closes the region.
    pub fn end_mark() -> (r: String)
        ensures
            r@ == end_mark_text(),
    {
        proof {
            reveal_strlit("");
            assert(""@ =~= Seq::<char>::empty());
            assert(base_mark_text("up to here"@, ""@) == base_mark_text(
                "up to here"@,
                Seq::<char>::empty(),
            ));
        }
        Self::base_mark("up to here", "")
    }

    /// The pattern that matches every line running `bin` from the given
    /// place.
    pub fn re_for_matching_missing_dir_line(&self, core: &str) -> (r: String)
        ensures
            r@ == missing_dir_pattern(core@, self.bin@),
    {
        let mut r = ".*cd\\s+".to_owned();
        r.append(core);
        r.append("\\s+&&\\s+");
        r.append(self.bin.as_str());
        r.append(".*\n");
        r
    }

    /// Splits a cron table around this tool's marked region.  When both
    /// marks are found the text decomposes exactly; otherwise everything is
    /// kept above an empty region.
    pub fn from_contents(contents: &str, bin: &str) -> (r: Cron)
        ensures
            r.bin@ == bin@,
            ({
                ||| contents@ == r.upper@ + start_mark_text(bin@) + r.my_area@ + end_mark_text()
                    + r.lower@
                ||| (r.upper@ == contents@ && r.my_area@ == ""@ && r.lower@ == ""@)
            }),
    {
        let smark = Self::start_mark(bin);
        let emark = Self::end_mark();
        let n = contents.unicode_len();
        let e_at = find_last(contents, emark.as_str());
        match e_at {
            Some(e) => {
                let slen = smark.as_str().unicode_len();
                let elen = emark.as_str().unicode_len();
                if slen > e {
                    proof {
                        reveal_strlit("");
                    }
                    return Cron {
                        bin: bin.to_owned(),
                        upper: contents.to_owned(),
                        my_area: "".to_owned(),
                        lower: "".to_owned(),
                    };
                }
                let s_at = find_last_at_most(contents, smark.as_str(), e - slen);
                match s_at {
                    Some(p1) => {
                        let upper = contents.substring_char(0, p1).to_owned();
                        let my_area = contents.substring_char(p1 + slen, e).to_owned();
                        let lower = contents.substring_char(e + elen, n).to_owned();
                        proof {
                            let sm = start_mark_text(bin@);
                            let em = end_mark_text();
                            assert(contents@.subrange(p1 as int, p1 + slen) == sm);
                            assert(contents@.subrange(e as int, e + elen) == em);
                            let rhs = upper@ + sm + my_area@ + em + lower@;
                            assert(rhs.len() == contents@.len());
                            assert forall|k: int|
                                0 <= k < contents@.len() implies contents@[k] == rhs[k] by {
                                if k < p1 {
                                    assert(rhs[k] == upper@[k]);
                                    assert(upper@[k] == contents@[k]);
                                } else if k < p1 + slen {
                                    assert(rhs[k] == sm[k - p1]);
                                    assert(contents@.subrange(p1 as int, p1 + slen)[k - p1]
                                        == contents@[k]);
                                } else if k < e {
                                    assert(rhs[k] == my_area@[k - p1 - slen]);
                                    assert(my_area@[k - p1 - slen] == contents@[k]);
                                } else if k < e + elen {
                                    assert(rhs[k] == em[k - e]);
                                    assert(contents@.subrange(e as int, e + elen)[k - e]
                                        == contents@[k]);
                                } else {
                                    assert(rhs[k] == lower@[k - e - elen]);
                                    assert(lower@[k - e - elen] == contents@[k]);
                                }
                            }
                            assert(contents@ =~= rhs);
                        }
                        Cron { bin: bin.to_owned(), upper, my_area, lower }
                    },
                    None => {
                        proof {
                            reveal_strlit("");
                        }
                        Cron {
                            bin: bin.to_owned(),
                            upper: contents.to_owned(),
                            my_area: "".to_owned(),
                            lower: "".to_owned(),
                        }
                    },
                }
            },
            None => {
                proof {
                    reveal_strlit("");
                }
                Cron {
                    bin: bin.to_owned(),
                    upper: contents.to_owned(),
                    my_area: "".to_owned(),
                    lower: "".to_owned(),
                }
            },
        }
    }

    /// Removes every line of the region that runs `bin` from `dir`.
    pub fn delete(&mut self, dir: &str) -> (r: Result<(), regex::Error>)
        ensures
            final(self).bin == old(self).bin,
            final(self).upper == old(self).upper,
            final(self).lower == old(self).lower,
            match r {
                Ok(_) => {
                    &&& regex_ok(missing_dir_pattern(dir@, old(self).bin@))
                    &&& final(self).my_area@ == regex_strip(
                        missing_dir_pattern(dir@, old(self).bin@),
                        old(self).my_area@,
                    )
                },
                Err(_) => {
                    &&& !regex_ok(missing_dir_pattern(dir@, old(self).bin@))
                    &&& final(self).my_area == old(self).my_area
                },
            },
    {
        let pattern = self.re_for_matching_missing_dir_line(dir);
        match regex_remove_all(pattern.as_str(), self.my_area.as_str()) {
            Ok(stripped) => {
                self.my_area = stripped;
                Ok(())
            },
            Err(e) => Err(e),
        }
    }

    /// Schedules the given time/command pairs from `current_dir`, replacing
    /// any lines previously scheduled from there.
    pub fn update(self, current_dir: &str, pairs: &Vec<(String, String)>) -> (r: Result<
        Cron,
        CliError,
    >)
        ensures
            match r {
                Ok(c) => {
                    &&& c.bin == self.bin
                    &&& c.upper == self.upper
                    &&& c.lower == self.lower
                    &&& regex_ok(missing_dir_pattern(current_dir@, self.bin@))
                    &&& c.my_area@ == regex_strip(
                        missing_dir_pattern(current_dir@, self.bin@),
                        self.my_area@,
                    ) + schedule_lines(views2(pairs@), current_dir@, self.bin@)
                },
                Err(_) => !regex_ok(missing_dir_pattern(current_dir@, self.bin@)),
            },
    {
        let ghost orig = self;
        let mut cron = self;
        match cron.delete(current_dir) {
            Ok(_) => {},
            Err(e) => {
                return Err(CliError::Regex(e));
            },
        }
        let ghost base = cron.my_area@;
        let n = pairs.len();
        let mut i: usize = 0;
        proof {
            assert(views2(pairs@).take(0) =~= Seq::<(Seq<char>, Seq<char>)>::empty());
            assert(cron.my_area@ =~= base + schedule_lines(
                views2(pairs@).take(0),
                current_dir@,
                orig.bin@,
            ));
        }
        while i < n
            invariant
                n == pairs@.len(),
                i <= n,
                cron.bin == orig.bin,
                cron.upper == orig.upper,
                cron.lower == orig.lower,
                cron.my_area@ == base + schedule_lines(
                    views2(pairs@).take(i as int),
                    current_dir@,
                    orig.bin@,
                ),
            decreases n - i,
        {
            proof {
                assert(views2(pairs@).take(i + 1).drop_last() =~= views2(pairs@).take(i as int));
                assert(views2(pairs@).take(i + 1).last() == views2(pairs@)[i as int]);
            }
            let mut line = pairs[i].0.clone();
            line.append("\tcd ");
            line.append(current_dir);
            line.append(" && ");
            line.append(cron.bin.as_str());
            line.append(" ");
            line.append(pairs[i].1.as_str());
            line.append("\n");
            cron.my_area.append(line.as_str());
            i += 1;
        }
        proof {
            assert(views2(pairs@).take(n as int) =~= views2(pairs@));
        }
        Ok(cron)
    }

    /// Drops every scheduled line whose recorded directory no longer holds
    /// the tool's working directory.  The answer of the disk decides which
    /// lines go; whatever it answers, the surrounding region is untouched.
    pub fn discard(self) -> (r: Result<Cron, regex::Error>)
        ensures
            match r {
                Ok(c) => {
                    &&& c.bin == self.bin
                    &&& c.upper == self.upper
                    &&& c.lower == self.lower
                    &&& (c.my_area == self.my_area || exists|a: Seq<char>|
                        c.my_area@ == regex_strip(
                            #[trigger] missing_dir_pattern(a, self.bin@),
                            self.my_area@,
                        ))
                },
                Err(_) => !regex_ok(missing_dir_pattern("(?P<path>[^\\s]+)"@, self.bin@))
                    || exists|a: Seq<char>| !regex_ok(#[trigger] missing_dir_pattern(a, self.bin@)),
            },
    {
        let pattern1 = self.re_for_matching_missing_dir_line("(?P<path>[^\\s]+)");
        let caps = match regex_capture_group(pattern1.as_str(), "path", self.my_area.as_str()) {
            Ok(v) => v,
            Err(e) => {
                return Err(e);
            },
        };
        let mut targets = PathSet::new();
        let n = caps.len();
        let mut i: usize = 0;
        while i < n
            invariant
                n == caps@.len(),
                i <= n,
                targets.inv(),
            decreases n - i,
        {
            if !working_dir_exists_under(caps[i].as_str()) {
                targets.insert(caps[i].clone());
            }
            i += 1;
        }
        let m = targets.len();
        if m == 0 {
            return Ok(self);
        }
        let mut core = String::new();
        let mut k: usize = 0;
        while k < m
            invariant
                m == targets.seq().len(),
                k <= m,
            decreases m - k,
        {
            if k > 0 {
                core.append("|");
            }
            core.append(targets.get(k).as_str());
            k += 1;
        }
        let mut alt = "(".to_owned();
        alt.append(core.as_str());
        alt.append(")");
        let pattern2 = self.re_for_matching_missing_dir_line(alt.as_str());
        match regex_remove_all(pattern2.as_str(), self.my_area.as_str()) {
            Ok(stripped) => {
                proof {
                    assert(stripped@ == regex_strip(
                        missing_dir_pattern(alt@, self.bin@),
                        self.my_area@,
                    ));
                }
                Ok(Cron { bin: self.bin, upper: self.upper, my_area: stripped, lower: self.lower })
            },
            Err(e) => {
                proof {
                    assert(!regex_ok(missing_dir_pattern(alt@, self.bin@)));
                }
                Err(e)
            },
        }
    }

    /// Renders the whole cron table around the region: a blank region
    /// leaves no marks behind.
    pub fn render(&self) -> (r: String)
        ensures
            r@ == if area_blank(self.my_area@) {
                self.upper@ + self.lower@
            } else {
                self.upper@ + start_mark_text(self.bin@) + self.my_area@ + end_mark_text()
                    + self.lower@
            },
    {
        if self.my_area_is_empty() {
            let mut r = self.upper.clone();
            r.append(self.lower.as_str());
            r
        } else {
            let mut r = self.upper.clone();
            r.append(Self::start_mark(self.bin.as_str()).as_str());
            r.append(self.my_area.as_str());
            r.append(Self::end_mark().as_str());
            r.append(self.lower.as_str());
            r
        }
    }

    /// The region holds nothing but whitespace.
    pub fn my_area_is_empty(&self) -> (r: bool)
        ensures
            r == area_blank(self.my_area@),
    {
        let n = self.my_area.as_str().unicode_len();
        let mut i: usize = 0;
        while i < n
            invariant
                n == self.my_area@.len(),
                i <= n,
                forall|k: int| 0 <= k < i ==> is_space(#[trigger] self.my_area@[k]),
            decreases n - i,
        {
            if !is_space_char(self.my_area.as_str().get_char(i)) {
                return false;
            }
            i += 1;
        }
        true
    }
}

/// A region with only whitespace in it.
pub open spec fn area_blank(s: Seq<char>) -> bool {
    forall|k: int| 0 <= k < s.len() ==> is_space(#[trigger] s[k])
}

/// The views of a sequence of string pairs.
pub open spec fn views2(v: Seq<(String, String)>) -> Seq<(Seq<char>, Seq<char>)> {
    v.map_values(|p: (String, String)| (p.0@, p.1@))
}

/// The schedule lines for the given time/command pairs.
pub open spec fn schedule_lines(
    pairs: Seq<(Seq<char>, Seq<char>)>,
    dir: Seq<char>,
    bin: Seq<char>,
) -> Seq<char>
    decreases pairs.len(),
{
    if pairs.len() == 0 {
        Seq::empty()
    } else {
        schedule_lines(pairs.drop_last(), dir, bin) + pairs.last().0 + "\tcd "@ + dir + " && "@
            + bin + " "@ + pairs.last().1 + "\n"@
    }
}

/// `pat` occurs in `s` at position `i`.
pub open spec fn occurs_at(s: Seq<char>, pat: Seq<char>, i: int) -> bool {
    0 <= i && i + pat.len() <= s.len() && s.subrange(i, i + pat.len()) == pat
}

/// The last occurrence of `pat` in `s`.
fn find_last(s: &str, pat: &str) -> (r: Option<usize>)
    ensures
        match r {
            Some(i) => occurs_at(s@, pat@, i as int) && forall|k: int|
                i < k ==> !occurs_at(s@, pat@, k),
            None => forall|k: int| !occurs_at(s@, pat@, k),
        },
{
    let n = s.unicode_len();
    let m = pat.unicode_len();
    if m > n {
        return None;
    }
    find_last_at_most(s, pat, n - m)
}

/// The last occurrence of `pat` in `s` at or before `limit`.
fn find_last_at_most(s: &str, pat: &str, limit: usize) -> (r: Option<usize>)
    ensures
        match r {
            Some(i) => i <= limit && occurs_at(s@, pat@, i as int) && forall|k: int|
                i < k <= limit ==> !occurs_at(s@, pat@, k),
            None => forall|k: int| k <= limit ==> !occurs_at(s@, pat@, k),
        },
{
    let n = s.unicode_len();
    let lim: usize = if limit > n {
        n
    } else {
        limit
    };
    let mut c: usize = lim;
    loop
        invariant
            n == s@.len(),
            c <= lim,
            lim <= n,
            lim <= limit,
            forall|k: int| c < k <= limit ==> !occurs_at(s@, pat@, k),
        ensures
            forall|k: int| 0 <= k <= limit ==> !occurs_at(s@, pat@, k),
        decreases c,
    {
        if matches_at(s, pat, c) {
            return Some(c);
        }
        if c == 0 {
            break;
        }
        c -= 1;
    }
    proof {
        assert forall|k: int| k <= limit implies !occurs_at(s@, pat@, k) by {
            if k == 0 {
            }
        }
    }
    None
}

/// Whether `pat` matches `s` starting at `i`.
fn matches_at(s: &str, pat: &str, i: usize) -> (r: bool)
    ensures
        r == occurs_at(s@, pat@, i as int),
{
    let n = s.unicode_len();
    let m = pat.unicode_len();
    if i > n || m > n - i {
        return false;
    }
    let mut j: usize = 0;
    while j < m
        invariant
            n == s@.len(),
            m == pat@.len(),
            i + m <= n,
            j <= m,
            forall|k: int| 0 <= k < j ==> s@[i + k] == pat@[k],
        decreases m - j,
    {
        if s.get_char(i + j) != pat.get_char(j) {
            proof {
                assert(s@.subrange(i as int, i + m)[j as int] == s@[i + j]);
            }
            return false;
        }
        j += 1;
    }
    proof {
        assert(s@.subrange(i as int, i + m) =~= pat@);
    }
    true
}

} // verus!
