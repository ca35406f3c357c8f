use vstd::prelude::*;

use crate::dates::Duration;
use crate::error::{CliError, ConfigError, ConfigErrorKind};
use crate::strutil::{
    all_digits, digit_prefix, digit_prefix_len, digits_val, is_space, is_space_char,
    lemma_digit_prefix_len_bounds, parse_u32_digits, str_eq, str_trim, trim_spec,
};

verus! {

/// The four persisted configuration keys.
#[derive(Debug)]
pub enum ConfigKey {
    BurnMoratorium,
    SweepMoratorium,
    SweepPeriod,
    SweepTime,
}

pub open spec fn key_text(k: ConfigKey) -> Seq<char> {
    match k {
        ConfigKey::BurnMoratorium => "burn.moratorium"@,
        ConfigKey::SweepMoratorium => "sweep.moratorium"@,
        ConfigKey::SweepPeriod => "sweep.period"@,
        ConfigKey::SweepTime => "sweep.time"@,
    }
}

pub open spec fn key_pair(k: ConfigKey) -> (Seq<char>, Seq<char>) {
    match k {
        ConfigKey::BurnMoratorium => ("burn"@, "moratorium"@),
        ConfigKey::SweepMoratorium => ("sweep"@, "moratorium"@),
        ConfigKey::SweepPeriod => ("sweep"@, "period"@),
        ConfigKey::SweepTime => ("sweep"@, "time"@),
    }
}

impl ConfigKey {
    /// Reads a key name, surrounding whitespace discounted.
    pub fn from(key: &str) -> (r: Result<ConfigKey, ConfigError>)
        ensures
            match r {
                Ok(k) => trim_spec(key@) == key_text(k),
                Err(e) => {
                    &&& e.kind == ConfigErrorKind::InvalidKey
                    &&& forall|k: ConfigKey| trim_spec(key@) != key_text(k)
                },
            },
    {
        let t = str_trim(key);
        if str_eq(t.as_str(), "burn.moratorium") {
            Ok(ConfigKey::BurnMoratorium)
        } else if str_eq(t.as_str(), "sweep.moratorium") {
            Ok(ConfigKey::SweepMoratorium)
        } else if str_eq(t.as_str(), "sweep.period") {
            Ok(ConfigKey::SweepPeriod)
        } else if str_eq(t.as_str(), "sweep.time") {
            Ok(ConfigKey::SweepTime)
        } else {
            proof {
                assert forall|k: ConfigKey| trim_spec(key@) != key_text(k) by {
                    match k {
                        ConfigKey::BurnMoratorium => {},
                        ConfigKey::SweepMoratorium => {},
                        ConfigKey::SweepPeriod => {},
                        ConfigKey::SweepTime => {},
                    }
                }
            }
            Err(ConfigError::new(ConfigErrorKind::InvalidKey))
        }
    }

    pub fn to_str(&self) -> (r: &'static str)
        ensures
            r@ == key_text(*self),
    {
        match *self {
            ConfigKey::BurnMoratorium => "burn.moratorium",
            ConfigKey::SweepMoratorium => "sweep.moratorium",
            ConfigKey::SweepPeriod => "sweep.period",
            ConfigKey::SweepTime => "sweep.time",
        }
    }

    /// The table and entry name of the key.
    pub fn to_pair(&self) -> (r: (&'static str, &'static str))
        ensures
            r.0@ == key_pair(*self).0,
            r.1@ == key_pair(*self).1,
    {
        match *self {
            ConfigKey::BurnMoratorium => ("burn", "moratorium"),
            ConfigKey::SweepMoratorium => ("sweep", "moratorium"),
            ConfigKey::SweepPeriod => ("sweep", "period"),
            ConfigKey::SweepTime => ("sweep", "time"),
        }
    }
}

/// A moratorium unit that burning accepts: whole days or weeks.
pub open spec fn burn_unit(u: Seq<char>) -> bool {
    u == "day"@ || u == "days"@ || u == "week"@ || u == "weeks"@
}

/// A moratorium unit that sweeping accepts.
pub open spec fn sweep_unit(u: Seq<char>) -> bool {
    burn_unit(u) || u == "minute"@ || u == "minutes"@ || u == "hour"@ || u == "hours"@
}

/// The number part of a moratorium value: its opening digit run.
pub open spec fn moratorium_num(t: Seq<char>) -> Seq<char> {
    t.take(digit_prefix_len(t))
}

/// The unit part of a moratorium value: what follows the digits, one
/// optional whitespace character discounted.
pub open spec fn moratorium_unit(t: Seq<char>) -> Seq<char> {
    let rest = t.skip(digit_prefix_len(t));
    if rest.len() > 0 && is_space(rest[0]) {
        rest.skip(1)
    } else {
        rest
    }
}

/// A well-formed moratorium value: digits, then at most one whitespace
/// character, then an accepted unit.
pub open spec fn moratorium_ok(t: Seq<char>, for_sweep: bool) -> bool {
    &&& digit_prefix_len(t) >= 1
    &&& if for_sweep {
        sweep_unit(moratorium_unit(t))
    } else {
        burn_unit(moratorium_unit(t))
    }
}

/// Splits a moratorium value into its number and its unit, when it is
/// well-formed for the allowed unit set.
pub fn capture_moratorium(value: &str, for_sweep: bool) -> (r: Option<(String, String)>)
    ensures
        r is Some <==> moratorium_ok(value@, for_sweep),
        r is Some ==> {
            &&& r.unwrap().0@ == moratorium_num(value@)
            &&& r.unwrap().1@ == moratorium_unit(value@)
        },
{
    let n = value.unicode_len();
    let k = digit_prefix(value);
    if k == 0 {
        return None;
    }
    proof {
        lemma_digit_prefix_len_bounds(value@);
    }
    let num = value.substring_char(0, k).to_owned();
    let mut u: usize = k;
    if u < n && is_space_char(value.get_char(u)) {
        u += 1;
    }
    let unit = value.substring_char(u, n).to_owned();
    proof {
        assert(value@.skip(k as int) =~= value@.subrange(k as int, n as int));
        if u > k {
            assert(value@.skip(k as int).skip(1) =~= value@.subrange(u as int, n as int));
        }
        assert(unit@ == moratorium_unit(value@));
        assert(num@ == moratorium_num(value@));
    }
    let ok = if for_sweep {
        str_eq(unit.as_str(), "minute") || str_eq(unit.as_str(), "minutes") || str_eq(
            unit.as_str(),
            "hour",
        ) || str_eq(unit.as_str(), "hours") || str_eq(unit.as_str(), "day") || str_eq(
            unit.as_str(),
            "days",
        ) || str_eq(unit.as_str(), "week") || str_eq(unit.as_str(), "weeks")
    } else {
        str_eq(unit.as_str(), "day") || str_eq(unit.as_str(), "days") || str_eq(
            unit.as_str(),
            "week",
        ) || str_eq(unit.as_str(), "weeks")
    };
    if ok {
        Some((num, unit))
    } else {
        None
    }
}

/// A well-formed time of day: one or two digits of hour, a colon, one or
/// two digits of minute, in range.
pub open spec fn time_ok(t: Seq<char>) -> bool {
    let h = digit_prefix_len(t);
    &&& 1 <= h <= 2
    &&& h < t.len()
    &&& t[h] == ':'
    &&& all_digits(t.skip(h + 1))
    &&& 1 <= t.len() - h - 1 <= 2
    &&& digits_val(t.take(h)) < 24
    &&& digits_val(t.skip(h + 1)) < 60
}

pub open spec fn time_hour(t: Seq<char>) -> int {
    digits_val(t.take(digit_prefix_len(t)))
}

pub open spec fn time_minute(t: Seq<char>) -> int {
    digits_val(t.skip(digit_prefix_len(t) + 1))
}

/// One stored entry: a key with its quoted string value.
#[derive(Debug)]
pub struct TomlEntry {
    pub key: String,
    pub value: String,
}

/// One table of the document.
#[derive(Debug)]
pub struct TomlSection {
    pub name: String,
    pub entries: Vec<TomlEntry>,
}

/// The value the first entry named `key` holds.
pub open spec fn entry_lookup(es: Seq<TomlEntry>, key: Seq<char>) -> Option<Seq<char>>
    decreases es.len(),
{
    if es.len() == 0 {
        None
    } else if es[0].key@ == key {
        Some(es[0].value@)
    } else {
        entry_lookup(es.skip(1), key)
    }
}

/// The value under the first table named `sec`.
pub open spec fn doc_lookup(ss: Seq<TomlSection>, sec: Seq<char>, key: Seq<char>) -> Option<
    Seq<char>,
>
    decreases ss.len(),
{
    if ss.len() == 0 {
        None
    } else if ss[0].name@ == sec {
        entry_lookup(ss[0].entries@, key)
    } else {
        doc_lookup(ss.skip(1), sec, key)
    }
}

/// An editable two-level document of string values, as the configuration
/// file stores them.
#[derive(Debug)]
pub struct EditableToml {
    pub sections: Vec<TomlSection>,
}

proof fn lemma_entry_lookup_skip(es: Seq<TomlEntry>, j: int, key: Seq<char>)
    requires
        0 <= j <= es.len(),
        forall|k: int| 0 <= k < j ==> (#[trigger] es[k]).key@ != key,
    ensures
        entry_lookup(es, key) == entry_lookup(es.skip(j), key),
    decreases j,
{
    if j > 0 {
        assert(es[0].key@ != key);
        assert forall|k: int| 0 <= k < j - 1 implies (#[trigger] es.skip(1)[k]).key@ != key by {
            assert(es.skip(1)[k] == es[k + 1]);
        }
        lemma_entry_lookup_skip(es.skip(1), j - 1, key);
        assert(es.skip(1).skip(j - 1) =~= es.skip(j));
    } else {
        assert(es.skip(0) =~= es);
    }
}

proof fn lemma_doc_lookup_skip(ss: Seq<TomlSection>, j: int, sec: Seq<char>, key: Seq<char>)
    requires
        0 <= j <= ss.len(),
        forall|k: int| 0 <= k < j ==> (#[trigger] ss[k]).name@ != sec,
    ensures
        doc_lookup(ss, sec, key) == doc_lookup(ss.skip(j), sec, key),
    decreases j,
{
    if j > 0 {
        assert(ss[0].name@ != sec);
        assert forall|k: int| 0 <= k < j - 1 implies (#[trigger] ss.skip(1)[k]).name@ != sec by {
            assert(ss.skip(1)[k] == ss[k + 1]);
        }
        lemma_doc_lookup_skip(ss.skip(1), j - 1, sec, key);
        assert(ss.skip(1).skip(j - 1) =~= ss.skip(j));
    } else {
        assert(ss.skip(0) =~= ss);
    }
}

impl EditableToml {
    pub open spec fn lookup(&self, sec: Seq<char>, key: Seq<char>) -> Option<Seq<char>> {
        doc_lookup(self.sections@, sec, key)
    }

    pub fn new() -> (r: EditableToml)
        ensures
            forall|s: Seq<char>, k: Seq<char>| #[trigger] r.lookup(s, k) is None,
    {
        let r = EditableToml { sections: Vec::new() };
        r
    }

    /// The position of the first table with this name.
    fn find_section(&self, sec: &str) -> (r: Option<usize>)
        ensures
            match r {
                Some(i) => {
                    &&& i < self.sections@.len()
                    &&& self.sections@[i as int].name@ == sec@
                    &&& forall|k: int| 0 <= k < i ==> (#[trigger] self.sections@[k]).name@ != sec@
                },
                None => forall|k: int|
                    0 <= k < self.sections@.len() ==> (#[trigger] self.sections@[k]).name@ != sec@,
            },
    {
        let n = self.sections.len();
        let mut i: usize = 0;
        while i < n
            invariant
                n == self.sections@.len(),
                i <= n,
                forall|k: int| 0 <= k < i ==> (#[trigger] self.sections@[k]).name@ != sec@,
            decreases n - i,
        {
            if str_eq(self.sections[i].name.as_str(), sec) {
                return Some(i);
            }
            i += 1;
        }
        None
    }

    /// Reads the value stored under a table and key.
    pub fn get_value(&self, sec: &str, key: &str) -> (r: Option<String>)
        ensures
            match r {
                Some(v) => self.lookup(sec@, key@) == Some(v@),
                None => self.lookup(sec@, key@) is None,
            },
    {
        let si = match self.find_section(sec) {
            Some(i) => i,
            None => {
                proof {
                    lemma_doc_lookup_skip(self.sections@, self.sections@.len() as int, sec@, key@);
                    assert(self.sections@.skip(self.sections@.len() as int) =~= Seq::<
                        TomlSection,
                    >::empty());
                }
                return None;
            },
        };
        let es = &self.sections[si].entries;
        let m = es.len();
        let mut j: usize = 0;
        while j < m
            invariant
                si < self.sections@.len(),
                self.sections@[si as int].name@ == sec@,
                forall|k: int| 0 <= k < si ==> (#[trigger] self.sections@[k]).name@ != sec@,
                es@ == self.sections@[si as int].entries@,
                m == es@.len(),
                j <= m,
                forall|k: int| 0 <= k < j ==> (#[trigger] es@[k]).key@ != key@,
            decreases m - j,
        {
            if str_eq(es[j].key.as_str(), key) {
                proof {
                    lemma_doc_lookup_skip(self.sections@, si as int, sec@, key@);
                    assert(self.sections@.skip(si as int)[0] == self.sections@[si as int]);
                    lemma_entry_lookup_skip(es@, j as int, key@);
                    assert(es@.skip(j as int)[0] == es@[j as int]);
                }
                return Some(es[j].value.clone());
            }
            j += 1;
        }
        proof {
            lemma_doc_lookup_skip(self.sections@, si as int, sec@, key@);
            assert(self.sections@.skip(si as int)[0] == self.sections@[si as int]);
            lemma_entry_lookup_skip(es@, m as int, key@);
            assert(es@.skip(m as int) =~= Seq::<TomlEntry>::empty());
        }
        None
    }

    /// Stores a value under a configuration key's table and entry name,
    /// replacing an earlier value and leaving every other spot untouched.
    pub fn overwrite(&mut self, key: &ConfigKey, value: String)
        ensures
            final(self).lookup(key_pair(*key).0, key_pair(*key).1) == Some(value@),
            forall|s: Seq<char>, k: Seq<char>|
                !(s == key_pair(*key).0 && k == key_pair(*key).1) ==> #[trigger] final(self).lookup(s, k) == old(self).lookup(s, k),
    {
        let (first, second) = key.to_pair();
        self.insert_raw(first, second, value);
    }

    /// Stores a value under a table and entry name, replacing an earlier
    /// value and leaving every other spot untouched.
    pub fn insert_raw(&mut self, first: &str, second: &str, value: String)
        ensures
            final(self).lookup(first@, second@) == Some(value@),
            forall|s: Seq<char>, k: Seq<char>|
                !(s == first@ && k == second@) ==> #[trigger] final(self).lookup(s, k) == old(
                    self,
                ).lookup(s, k),
    {
        let ghost fs = first@;
        let ghost ks = second@;
        let found = self.find_section(first);
        match found {
            Some(si) => {
                let ghost old_sections = self.sections@;
                let m = self.sections[si].entries.len();
                let mut j: usize = 0;
                let mut at: Option<usize> = None;
                while j < m
                    invariant
                        self == old(self),
                        ks == second@,
                        si < self.sections@.len(),
                        m == self.sections@[si as int].entries@.len(),
                        j <= m,
                        match at {
                            Some(jj) => {
                                &&& jj < j
                                &&& self.sections@[si as int].entries@[jj as int].key@ == ks
                                &&& forall|k: int|
                                    0 <= k < jj ==> (#[trigger] self.sections@[si as int].entries@[k]).key@ != ks
                            },
                            None => forall|k: int|
                                0 <= k < j ==> (#[trigger] self.sections@[si as int].entries@[k]).key@ != ks,
                        },
                    decreases m - j,
                {
                    match at {
                        Some(_) => {
                        },
                        None => {
                            if str_eq(self.sections[si].entries[j].key.as_str(), second) {
                                at = Some(j);
                            }
                        },
                    }
                    j += 1;
                }
                let entry = TomlEntry { key: second.to_owned(), value };
                let mut section = self.sections.remove(si);
                let ghost old_entries = section.entries@;
                match at {
                    Some(jj) => {
                        section.entries.remove(jj);
                        section.entries.insert(jj, entry);
                        proof {
                            assert(section.entries@ =~= old_entries.update(jj as int, section.entries@[jj as int]));
                        }
                    },
                    None => {
                        section.entries.push(entry);
                    },
                }
                let ghost new_entries = section.entries@;
                self.sections.insert(si, section);
                proof {
                    assert(self.sections@ =~= old_sections.update(si as int, self.sections@[si as int]));
                    let ss = self.sections@;
                    assert(ss[si as int].name@ == fs);
                    assert(forall|k: int| 0 <= k < si ==> (#[trigger] ss[k]).name@ != fs);
                    // the section now answers the new value for the key
                    assert(entry_lookup(new_entries, ks) == Some(value@)) by {
                        match at {
                            Some(jj) => {
                                lemma_entry_lookup_skip(new_entries, jj as int, ks);
                                assert(new_entries.skip(jj as int)[0] == new_entries[jj as int]);
                                assert(new_entries[jj as int].key@ == ks);
                            },
                            None => {
                                lemma_entry_lookup_skip(new_entries, old_entries.len() as int, ks);
                                assert(new_entries.skip(old_entries.len() as int)[0]
                                    == new_entries[old_entries.len() as int]);
                            },
                        }
                    }
                    lemma_doc_lookup_skip(ss, si as int, fs, ks);
                    assert(ss.skip(si as int)[0] == ss[si as int]);
                    assert(final(self).lookup(fs, ks) == Some(value@));
                    // everything else is untouched
                    assert forall|s: Seq<char>, k: Seq<char>|
                        !(s == fs && k == ks) implies #[trigger] final(self).lookup(s, k) == old(self).lookup(s, k) by {
                        if s == fs {
                            lemma_doc_lookup_skip(ss, si as int, s, k);
                            lemma_doc_lookup_skip(old_sections, si as int, s, k);
                            assert(ss.skip(si as int)[0] == ss[si as int]);
                            assert(old_sections.skip(si as int)[0] == old_sections[si as int]);
                            assert(entry_lookup(new_entries, k) == entry_lookup(old_entries, k))
                                by {
                                match at {
                                    Some(jj) => {
                                        lemma_entry_lookup_update(old_entries, new_entries, jj as int, k);
                                    },
                                    None => {
                                        lemma_entry_lookup_push(old_entries, new_entries, ks, k);
                                    },
                                }
                            }
                        } else {
                            lemma_doc_lookup_frame(old_sections, ss, si as int, s, k);
                        }
                    }
                }
            },
            None => {
                let ghost old_sections = self.sections@;
                let entry = TomlEntry { key: second.to_owned(), value };
                let mut entries: Vec<TomlEntry> = Vec::new();
                entries.push(entry);
                let section = TomlSection { name: first.to_owned(), entries };
                self.sections.push(section);
                proof {
                    let ss = self.sections@;
                    assert(ss =~= old_sections.push(ss[old_sections.len() as int]));
                    lemma_doc_lookup_skip(ss, old_sections.len() as int, fs, ks);
                    assert(ss.skip(old_sections.len() as int)[0] == ss[old_sections.len() as int]);
                    assert(ss[old_sections.len() as int].name@ == fs);
                    assert(ss[old_sections.len() as int].entries@[0].key@ == ks);
                    assert(entry_lookup(ss[old_sections.len() as int].entries@, ks) == Some(
                        value@,
                    ));
                    assert forall|s: Seq<char>, k: Seq<char>|
                        !(s == fs && k == ks) implies #[trigger] final(self).lookup(s, k) == old(self).lookup(s, k) by {
                        if s == fs {
                            lemma_doc_lookup_skip(ss, old_sections.len() as int, s, k);
                            lemma_doc_lookup_skip(old_sections, old_sections.len() as int, s, k);
                            assert(old_sections.skip(old_sections.len() as int) =~= Seq::<
                                TomlSection,
                            >::empty());
                            assert(ss.skip(old_sections.len() as int)[0] == ss[old_sections.len() as int]);
                            let es = ss[old_sections.len() as int].entries@;
                            assert(es.len() == 1);
                            if k != ks {
                                assert(es[0].key@ != k);
                                assert(entry_lookup(es.skip(1), k) is None) by {
                                    assert(es.skip(1) =~= Seq::<TomlEntry>::empty());
                                }
                            }
                        } else {
                            lemma_doc_lookup_stable_push(old_sections, ss, s, k);
                        }
                    }
                }
            },
        }
    }
}

/// Replacing one entry's value leaves every other key's answer unchanged.
proof fn lemma_entry_lookup_update(
    old_es: Seq<TomlEntry>,
    new_es: Seq<TomlEntry>,
    j: int,
    k: Seq<char>,
)
    requires
        0 <= j < old_es.len(),
        new_es.len() == old_es.len(),
        forall|i: int| 0 <= i < old_es.len() && i != j ==> new_es[i] == old_es[i],
        new_es[j].key@ == old_es[j].key@,
        k != old_es[j].key@,
    ensures
        entry_lookup(new_es, k) == entry_lookup(old_es, k),
    decreases old_es.len(),
{
    if old_es.len() > 0 {
        if j == 0 {
            assert(new_es.skip(1) =~= old_es.skip(1));
        } else {
            assert(new_es[0] == old_es[0]);
            assert forall|i: int|
                0 <= i < old_es.skip(1).len() && i != j - 1 implies new_es.skip(1)[i] == old_es.skip(
                1,
            )[i] by {
                assert(new_es.skip(1)[i] == new_es[i + 1]);
                assert(old_es.skip(1)[i] == old_es[i + 1]);
            }
            assert(new_es.skip(1)[j - 1] == new_es[j]);
            assert(old_es.skip(1)[j - 1] == old_es[j]);
            lemma_entry_lookup_update(old_es.skip(1), new_es.skip(1), j - 1, k);
        }
    }
}

/// Appending an entry for one key leaves every other key's answer
/// unchanged.
proof fn lemma_entry_lookup_push(
    old_es: Seq<TomlEntry>,
    new_es: Seq<TomlEntry>,
    pushed_key: Seq<char>,
    k: Seq<char>,
)
    requires
        new_es.len() == old_es.len() + 1,
        forall|i: int| 0 <= i < old_es.len() ==> new_es[i] == old_es[i],
        new_es.last().key@ == pushed_key,
        k != pushed_key,
    ensures
        entry_lookup(new_es, k) == entry_lookup(old_es, k),
    decreases old_es.len(),
{
    if old_es.len() == 0 {
        assert(new_es[0].key@ != k);
        assert(new_es.skip(1) =~= Seq::<TomlEntry>::empty());
    } else {
        assert(new_es[0] == old_es[0]);
        assert forall|i: int|
            0 <= i < old_es.skip(1).len() implies new_es.skip(1)[i] == old_es.skip(1)[i] by {
            assert(new_es.skip(1)[i] == new_es[i + 1]);
            assert(old_es.skip(1)[i] == old_es[i + 1]);
        }
        assert(new_es.skip(1).last() == new_es.last());
        lemma_entry_lookup_push(old_es.skip(1), new_es.skip(1), pushed_key, k);
    }
}

/// Replacing one section leaves every other section's answers unchanged.
proof fn lemma_doc_lookup_frame(
    old_ss: Seq<TomlSection>,
    new_ss: Seq<TomlSection>,
    j: int,
    s: Seq<char>,
    k: Seq<char>,
)
    requires
        0 <= j < old_ss.len(),
        new_ss.len() == old_ss.len(),
        forall|i: int| 0 <= i < old_ss.len() && i != j ==> new_ss[i] == old_ss[i],
        new_ss[j].name@ == old_ss[j].name@,
        s != old_ss[j].name@,
    ensures
        doc_lookup(new_ss, s, k) == doc_lookup(old_ss, s, k),
    decreases old_ss.len(),
{
    if old_ss.len() > 0 {
        if j == 0 {
            assert(new_ss.skip(1) =~= old_ss.skip(1));
        } else {
            assert(new_ss[0] == old_ss[0]);
            assert forall|i: int|
                0 <= i < old_ss.skip(1).len() && i != j - 1 implies new_ss.skip(1)[i] == old_ss.skip(
                1,
            )[i] by {
                assert(new_ss.skip(1)[i] == new_ss[i + 1]);
                assert(old_ss.skip(1)[i] == old_ss[i + 1]);
            }
            assert(new_ss.skip(1)[j - 1] == new_ss[j]);
            assert(old_ss.skip(1)[j - 1] == old_ss[j]);
            lemma_doc_lookup_frame(old_ss.skip(1), new_ss.skip(1), j - 1, s, k);
        }
    }
}

/// Appending a section with a fresh name leaves other names' answers
/// unchanged.
proof fn lemma_doc_lookup_stable_push(
    old_ss: Seq<TomlSection>,
    new_ss: Seq<TomlSection>,
    s: Seq<char>,
    k: Seq<char>,
)
    requires
        new_ss.len() == old_ss.len() + 1,
        forall|i: int| 0 <= i < old_ss.len() ==> new_ss[i] == old_ss[i],
        s != new_ss.last().name@,
    ensures
        doc_lookup(new_ss, s, k) == doc_lookup(old_ss, s, k),
    decreases old_ss.len(),
{
    if old_ss.len() == 0 {
        assert(new_ss[0].name@ != s);
        assert(new_ss.skip(1) =~= Seq::<TomlSection>::empty());
    } else {
        assert(new_ss[0] == old_ss[0]);
        assert forall|i: int|
            0 <= i < old_ss.skip(1).len() implies new_ss.skip(1)[i] == old_ss.skip(1)[i] by {
            assert(new_ss.skip(1)[i] == new_ss[i + 1]);
            assert(old_ss.skip(1)[i] == old_ss[i + 1]);
        }
        assert(new_ss.skip(1).last() == new_ss.last());
        lemma_doc_lookup_stable_push(old_ss.skip(1), new_ss.skip(1), s, k);
    }
}


/// The error kind reported when a key's value is missing.
pub open spec fn notfound_kind(k: ConfigKey) -> ConfigErrorKind {
    match k {
        ConfigKey::BurnMoratorium => ConfigErrorKind::NotFoundBurnMoratorium,
        ConfigKey::SweepMoratorium => ConfigErrorKind::NotFoundSweepMoratorium,
        ConfigKey::SweepPeriod => ConfigErrorKind::NotFoundSweepPeriod,
        ConfigKey::SweepTime => ConfigErrorKind::NotFoundSweepTime,
    }
}

/// The error kind reported when a key's value fails validation.
pub open spec fn invalid_kind(k: ConfigKey) -> ConfigErrorKind {
    match k {
        ConfigKey::BurnMoratorium => ConfigErrorKind::BurnMoratorium,
        ConfigKey::SweepMoratorium => ConfigErrorKind::SweepMoratorium,
        ConfigKey::SweepPeriod => ConfigErrorKind::SweepPeriod,
        ConfigKey::SweepTime => ConfigErrorKind::SweepTime,
    }
}

/// Whether a raw value, surrounding whitespace discounted, satisfies a
/// key's grammar.
pub open spec fn value_ok(k: ConfigKey, raw: Seq<char>) -> bool {
    let t = trim_spec(raw);
    match k {
        ConfigKey::BurnMoratorium => moratorium_ok(t, false) && moratorium_num(t) != "0"@,
        ConfigKey::SweepMoratorium => moratorium_ok(t, true),
        ConfigKey::SweepPeriod => t == "daily"@ || t == "weekly"@,
        ConfigKey::SweepTime => time_ok(t),
    }
}

/// The stored form of an accepted value: moratoriums are normalized to
/// `number, one space, unit`; the others keep their trimmed text.
pub open spec fn value_normalized(k: ConfigKey, raw: Seq<char>) -> Seq<char> {
    let t = trim_spec(raw);
    match k {
        ConfigKey::BurnMoratorium => moratorium_num(t) + " "@ + moratorium_unit(t),
        ConfigKey::SweepMoratorium => moratorium_num(t) + " "@ + moratorium_unit(t),
        ConfigKey::SweepPeriod => t,
        ConfigKey::SweepTime => t,
    }
}

/// The key pairs of distinct configuration keys differ.
proof fn lemma_config_pairs_distinct()
    ensures
        "burn"@ != "sweep"@,
        "moratorium"@ != "period"@,
        "moratorium"@ != "time"@,
        "period"@ != "time"@,
{
    reveal_strlit("burn");
    reveal_strlit("sweep");
    reveal_strlit("moratorium");
    reveal_strlit("period");
    reveal_strlit("time");
    assert("burn"@.len() == 4);
    assert("sweep"@.len() == 5);
    assert("moratorium"@.len() == 10);
    assert("period"@.len() == 6);
    assert("time"@.len() == 4);
    assert("time"@[0] == 't' && "moratorium"@[0] == 'm');
}

/// The persisted configuration document.
#[derive(Debug)]
pub struct Config {
    pub toml: EditableToml,
}

/// What one key is set to in a configuration.
pub open spec fn config_value(c: &Config, k: ConfigKey) -> Option<Seq<char>> {
    c.toml.lookup(key_pair(k).0, key_pair(k).1)
}

impl Config {
    /// Checks one value against its key's grammar, returning the stored
    /// form.
    pub fn validate(key: &ConfigKey, value: &str) -> (r: Result<String, ConfigError>)
        ensures
            match r {
                Ok(v) => value_ok(*key, value@) && v@ == value_normalized(*key, value@),
                Err(e) => !value_ok(*key, value@) && e.kind == invalid_kind(*key),
            },
    {
        let t = str_trim(value);
        match *key {
            ConfigKey::BurnMoratorium => {
                match capture_moratorium(t.as_str(), false) {
                    Some((num, unit)) => {
                        if str_eq(num.as_str(), "0") {
                            Err(ConfigError::new(ConfigErrorKind::BurnMoratorium))
                        } else {
                            let mut v = num;
                            v.append(" ");
                            v.append(unit.as_str());
                            Ok(v)
                        }
                    },
                    None => Err(ConfigError::new(ConfigErrorKind::BurnMoratorium)),
                }
            },
            ConfigKey::SweepMoratorium => {
                match capture_moratorium(t.as_str(), true) {
                    Some((num, unit)) => {
                        let mut v = num;
                        v.append(" ");
                        v.append(unit.as_str());
                        Ok(v)
                    },
                    None => Err(ConfigError::new(ConfigErrorKind::SweepMoratorium)),
                }
            },
            ConfigKey::SweepPeriod => {
                if str_eq(t.as_str(), "daily") || str_eq(t.as_str(), "weekly") {
                    Ok(t)
                } else {
                    Err(ConfigError::new(ConfigErrorKind::SweepPeriod))
                }
            },
            ConfigKey::SweepTime => {
                match Self::to_naive_time(t.as_str()) {
                    Some(_) => Ok(t),
                    None => Err(ConfigError::new(ConfigErrorKind::SweepTime)),
                }
            },
        }
    }

    /// The configuration the tool starts from.
    pub fn default() -> (r: Config)
        ensures
            config_value(&r, ConfigKey::BurnMoratorium) == Some("2 weeks"@),
            config_value(&r, ConfigKey::SweepMoratorium) == Some("10 minutes"@),
            config_value(&r, ConfigKey::SweepPeriod) == Some("daily"@),
            config_value(&r, ConfigKey::SweepTime) == Some("00:00"@),
    {
        proof {
            lemma_config_pairs_distinct();
        }
        let mut editable = EditableToml::new();
        editable.overwrite(&ConfigKey::BurnMoratorium, "2 weeks".to_owned());
        proof {
            assert(editable.lookup("burn"@, "moratorium"@) == Some("2 weeks"@));
        }
        editable.overwrite(&ConfigKey::SweepMoratorium, "10 minutes".to_owned());
        proof {
            assert(editable.lookup("burn"@, "moratorium"@) == Some("2 weeks"@));
            assert(editable.lookup("sweep"@, "moratorium"@) == Some("10 minutes"@));
        }
        editable.overwrite(&ConfigKey::SweepPeriod, "daily".to_owned());
        proof {
            assert(editable.lookup("burn"@, "moratorium"@) == Some("2 weeks"@));
            assert(editable.lookup("sweep"@, "moratorium"@) == Some("10 minutes"@));
            assert(editable.lookup("sweep"@, "period"@) == Some("daily"@));
        }
        editable.overwrite(&ConfigKey::SweepTime, "00:00".to_owned());
        proof {
            assert(editable.lookup("burn"@, "moratorium"@) == Some("2 weeks"@));
            assert(editable.lookup("sweep"@, "moratorium"@) == Some("10 minutes"@));
            assert(editable.lookup("sweep"@, "period"@) == Some("daily"@));
            assert(editable.lookup("sweep"@, "time"@) == Some("00:00"@));
        }
        Config { toml: editable }
    }

    /// Reads and validates the value of one key.
    pub fn get(&self, key: &ConfigKey) -> (r: Result<String, ConfigError>)
        ensures
            match r {
                Ok(v) => {
                    &&& config_value(self, *key) is Some
                    &&& value_ok(*key, config_value(self, *key).unwrap())
                    &&& v@ == value_normalized(*key, config_value(self, *key).unwrap())
                },
                Err(e) => {
                    ||| (config_value(self, *key) is None && e.kind == notfound_kind(*key))
                    ||| (config_value(self, *key) is Some && !value_ok(
                        *key,
                        config_value(self, *key).unwrap(),
                    ) && e.kind == invalid_kind(*key))
                },
            },
    {
        let (first, second) = key.to_pair();
        match self.toml.get_value(first, second) {
            Some(v) => Self::validate(key, v.as_str()),
            None => {
                let kind = match *key {
                    ConfigKey::BurnMoratorium => ConfigErrorKind::NotFoundBurnMoratorium,
                    ConfigKey::SweepMoratorium => ConfigErrorKind::NotFoundSweepMoratorium,
                    ConfigKey::SweepPeriod => ConfigErrorKind::NotFoundSweepPeriod,
                    ConfigKey::SweepTime => ConfigErrorKind::NotFoundSweepTime,
                };
                Err(ConfigError::new(kind))
            },
        }
    }

    /// Stores a validated value under a key.
    pub fn set(self, key: &ConfigKey, value: &str) -> (r: Result<Config, CliError>)
        ensures
            match r {
                Ok(c) => {
                    &&& value_ok(*key, value@)
                    &&& config_value(&c, *key) == Some(value_normalized(*key, value@))
                    &&& forall|s: Seq<char>, k: Seq<char>|
                        !(s == key_pair(*key).0 && k == key_pair(*key).1)
                            ==> #[trigger] c.toml.lookup(s, k) == self.toml.lookup(s, k)
                },
                Err(e) => {
                    &&& !value_ok(*key, value@)
                    &&& e matches CliError::Config(ce) && ce.kind == invalid_kind(*key)
                },
            },
    {
        let validated = match Self::validate(key, value) {
            Ok(v) => v,
            Err(e) => {
                return Err(CliError::Config(e));
            },
        };
        let mut toml = self.toml;
        toml.overwrite(key, validated);
        Ok(Config { toml })
    }

    /// Turns a stored moratorium value into a duration.
    pub fn to_duration(value: String) -> (r: Duration)
        requires
            duration_value_ok(value@),
        ensures
            r.seconds == duration_value_seconds(value@),
    {
        let sp = match crate::strutil::find_char(value.as_str(), ' ') {
            Some(i) => i,
            None => {
                proof {
                    assert(false);
                }
                0
            },
        };
        proof {
            crate::strutil::lemma_first_index_of(value@, ' ');
        }
        let n = value.as_str().unicode_len();
        let num_s = value.as_str().substring_char(0, sp);
        let num = match parse_u32_digits(num_s) {
            Some(v) => v,
            None => {
                proof {
                    assert(num_s@ =~= duration_num(value@));
                    assert(false);
                }
                0
            },
        };
        let rest = value.as_str().substring_char(sp + 1, n);
        let unit_end = match crate::strutil::find_char(rest, ' ') {
            Some(i) => i,
            None => rest.unicode_len(),
        };
        proof {
            crate::strutil::lemma_first_index_of(rest@, ' ');
        }
        let unit = rest.substring_char(0, unit_end);
        proof {
            assert(num_s@ =~= duration_num(value@));
            assert(rest@ =~= value@.skip(sp + 1));
            assert(unit@ =~= duration_unit(value@));
        }
        let nl: i64 = num as i64;
        if str_eq(unit, "minute") || str_eq(unit, "minutes") {
            Duration::minutes(nl)
        } else if str_eq(unit, "hour") || str_eq(unit, "hours") {
            Duration::hours(nl)
        } else if str_eq(unit, "day") || str_eq(unit, "days") {
            Duration::days(nl)
        } else {
            proof {
                assert(unit@ == "week"@ || unit@ == "weeks"@);
            }
            Duration::weeks(nl)
        }
    }

    /// Reads a time of day as its hour and minute.
    pub fn to_naive_time(value: &str) -> (r: Option<(u32, u32)>)
        ensures
            r is Some <==> time_ok(value@),
            r is Some ==> r.unwrap().0 == time_hour(value@) && r.unwrap().1 == time_minute(
                value@,
            ),
    {
        let n = value.unicode_len();
        let h = digit_prefix(value);
        if h < 1 || h > 2 || h >= n {
            return None;
        }
        if value.get_char(h) != ':' {
            return None;
        }
        let m_len = n - h - 1;
        if m_len < 1 || m_len > 2 {
            return None;
        }
        let hour_s = value.substring_char(0, h);
        let min_s = value.substring_char(h + 1, n);
        proof {
            assert(hour_s@ =~= value@.take(h as int));
            assert(min_s@ =~= value@.skip(h + 1));
            lemma_digit_prefix_len_bounds(value@);
        }
        let hour = match parse_u32_digits(hour_s) {
            Some(v) => v,
            None => {
                return None;
            },
        };
        let min = match parse_u32_digits(min_s) {
            Some(v) => v,
            None => {
                return None;
            },
        };
        if hour >= 24 || min >= 60 {
            return None;
        }
        proof {
            assert(crate::strutil::all_digits(value@.take(h as int)));
        }
        Some((hour, min))
    }

    /// The hour and minute of a stored time value.
    pub fn to_hour_and_minute(value: String) -> (r: (u32, u32))
        requires
            time_ok(value@),
        ensures
            r.0 == time_hour(value@),
            r.1 == time_minute(value@),
    {
        match Self::to_naive_time(value.as_str()) {
            Some(p) => p,
            None => {
                proof {
                    assert(false);
                }
                (0, 0)
            },
        }
    }
}

/// A stored duration value: a number, a space, then a unit; anything after
/// a further space is discounted.
pub open spec fn duration_num(t: Seq<char>) -> Seq<char> {
    t.take(crate::strutil::first_index_of(t, ' '))
}

pub open spec fn duration_unit(t: Seq<char>) -> Seq<char> {
    let rest = t.skip(crate::strutil::first_index_of(t, ' ') + 1);
    if crate::strutil::first_index_of(rest, ' ') < 0 {
        rest
    } else {
        rest.take(crate::strutil::first_index_of(rest, ' '))
    }
}

pub open spec fn duration_unit_seconds(u: Seq<char>) -> int {
    if u == "minute"@ || u == "minutes"@ {
        60
    } else if u == "hour"@ || u == "hours"@ {
        3600
    } else if u == "day"@ || u == "days"@ {
        86400
    } else if u == "week"@ || u == "weeks"@ {
        604800
    } else {
        0
    }
}

pub open spec fn duration_value_ok(t: Seq<char>) -> bool {
    &&& crate::strutil::first_index_of(t, ' ') >= 1
    &&& all_digits(duration_num(t))
    &&& digits_val(duration_num(t)) <= u32::MAX
    &&& duration_unit_seconds(duration_unit(t)) > 0
}

pub open spec fn duration_value_seconds(t: Seq<char>) -> int {
    digits_val(duration_num(t)) * duration_unit_seconds(duration_unit(t))
}


/// The text one entry serializes to: the key, an equals sign, the value in
/// quotes, a line break.
pub open spec fn entry_text(e: TomlEntry) -> Seq<char> {
    e.key@ + " = \""@ + e.value@ + "\"\n"@
}

/// The text of a run of entries.
pub open spec fn entries_text(es: Seq<TomlEntry>) -> Seq<char>
    decreases es.len(),
{
    if es.len() == 0 {
        Seq::empty()
    } else {
        entries_text(es.drop_last()) + entry_text(es.last())
    }
}

/// The text of a run of tables: a bracketed header, then the entries.
pub open spec fn sections_text(ss: Seq<TomlSection>) -> Seq<char>
    decreases ss.len(),
{
    if ss.len() == 0 {
        Seq::empty()
    } else {
        sections_text(ss.drop_last()) + "["@ + ss.last().name@ + "]\n"@ + entries_text(
            ss.last().entries@,
        )
    }
}

impl Config {
    /// Renders the document in the stored file form.
    pub fn to_string(&self) -> (r: String)
        ensures
            r@ == sections_text(self.toml.sections@),
    {
        let ss = &self.toml.sections;
        let n = ss.len();
        let mut r = String::new();
        let mut i: usize = 0;
        proof {
            assert(ss@.take(0) =~= Seq::<TomlSection>::empty());
        }
        while i < n
            invariant
                n == ss@.len(),
                i <= n,
                r@ == sections_text(ss@.take(i as int)),
            decreases n - i,
        {
            proof {
                assert(ss@.take(i + 1).drop_last() =~= ss@.take(i as int));
                assert(ss@.take(i + 1).last() == ss@[i as int]);
            }
            r.append("[");
            r.append(ss[i].name.as_str());
            r.append("]\n");
            let es = &ss[i].entries;
            let m = es.len();
            let mut j: usize = 0;
            let ghost before_entries = r@;
            proof {
                assert(es@.take(0) =~= Seq::<TomlEntry>::empty());
            }
            while j < m
                invariant
                    m == es@.len(),
                    j <= m,
                    r@ == before_entries + entries_text(es@.take(j as int)),
                decreases m - j,
            {
                proof {
                    assert(es@.take(j + 1).drop_last() =~= es@.take(j as int));
                    assert(es@.take(j + 1).last() == es@[j as int]);
                }
                r.append(es[j].key.as_str());
                r.append(" = \"");
                r.append(es[j].value.as_str());
                r.append("\"\n");
                j += 1;
            }
            proof {
                assert(es@.take(m as int) =~= es@);
            }
            i += 1;
        }
        proof {
            assert(ss@.take(n as int) =~= ss@);
        }
        r
    }
}

/// A table header line: a name in square brackets.
pub open spec fn header_line(t: Seq<char>) -> bool {
    t.len() >= 2 && t[0] == '[' && t.last() == ']'
}

/// An entry line: a key, an equals sign, then a double-quoted value free of
/// further quotes.
pub open spec fn entry_line(t: Seq<char>) -> bool {
    let i = crate::strutil::first_index_of(t, '=');
    &&& i >= 0
    &&& trim_spec(t.take(i)).len() > 0
    &&& {
        let v = trim_spec(t.skip(i + 1));
        &&& v.len() >= 2
        &&& v[0] == '"'
        &&& v.last() == '"'
        &&& forall|k: int| 0 < k < v.len() - 1 ==> v[k] != '"'
    }
}

/// A line the configuration grammar accepts.
pub open spec fn config_line_ok(l: Seq<char>) -> bool {
    let t = trim_spec(l);
    t.len() == 0 || header_line(t) || entry_line(t)
}

/// The lines of a text, split on line breaks.
pub open spec fn lines_of(s: Seq<char>) -> Seq<Seq<char>>
    decreases s.len(),
    via lines_of_decreases
{
    let i = crate::strutil::first_index_of(s, '\n');
    if i < 0 {
        seq![s]
    } else {
        seq![s.take(i)] + lines_of(s.skip(i + 1))
    }
}

#[via_fn]
proof fn lines_of_decreases(s: Seq<char>) {
    crate::strutil::lemma_first_index_of(s, '\n');
}

/// A whole configuration text is well formed when every line fits the
/// grammar and every entry line falls under some earlier table header.
pub open spec fn config_text_ok(s: Seq<char>) -> bool {
    &&& forall|i: int| 0 <= i < lines_of(s).len() ==> config_line_ok(#[trigger] lines_of(s)[i])
    &&& forall|i: int|
        0 <= i < lines_of(s).len() && entry_line(trim_spec(#[trigger] lines_of(s)[i]))
            ==> exists|j: int| 0 <= j < i && header_line(trim_spec(lines_of(s)[j]))
}

/// A header line is never an entry line: it ends with a bracket, an
/// entry's value with a quote.
proof fn lemma_header_not_entry(t: Seq<char>)
    requires
        header_line(t),
    ensures
        !entry_line(t),
{
    if entry_line(t) {
        let i = crate::strutil::first_index_of(t, '=');
        crate::strutil::lemma_first_index_of(t, '=');
        let x = t.skip(i + 1);
        let v = trim_spec(x);
        assert(v.len() >= 2 && v.last() == '"');
        if x.len() == 0 {
            assert(trim_spec(x) =~= x);
            assert(v.len() == 0);
        } else {
            assert(x.last() == t.last());
            assert(!crate::strutil::is_space(x.last()));
            crate::strutil::lemma_trim_start_last(x);
            let y = crate::strutil::trim_start_spec(x);
            if y.len() == 0 {
                assert(v == crate::strutil::trim_end_spec(y));
                assert(v.len() == 0);
            } else {
                assert(y.last() == ']');
                assert(crate::strutil::trim_end_spec(y) == y);
                assert(v.last() == ']');
            }
        }
        assert(false);
    }
}

/// Classifies one line of configuration text.
pub enum LineKind {
    Blank,
    Header(String),
    Entry(String, String),
    Bad,
}

/// Reads one line: a blank, a `[table]` header, a `key = "value"` entry, or
/// nothing of the kind.
pub fn classify_line(line: &str) -> (r: LineKind)
    ensures
        match r {
            LineKind::Blank => trim_spec(line@).len() == 0,
            LineKind::Header(name) => {
                &&& header_line(trim_spec(line@))
                &&& name@ == trim_spec(line@).subrange(1, trim_spec(line@).len() - 1)
            },
            LineKind::Entry(key, value) => {
                let t = trim_spec(line@);
                let i = crate::strutil::first_index_of(t, '=');
                &&& entry_line(t)
                &&& key@ == trim_spec(t.take(i))
                &&& value@ == trim_spec(t.skip(i + 1)).subrange(
                    1,
                    trim_spec(t.skip(i + 1)).len() - 1,
                )
            },
            LineKind::Bad => !config_line_ok(line@),
        },
        r is Bad <==> !config_line_ok(line@),
{
    let t = str_trim(line);
    let n = t.as_str().unicode_len();
    if n == 0 {
        return LineKind::Blank;
    }
    if t.as_str().get_char(0) == '[' && n >= 2 && t.as_str().get_char(n - 1) == ']' {
        let name = t.as_str().substring_char(1, n - 1).to_owned();
        return LineKind::Header(name);
    }
    proof {
        assert(!header_line(t@));
    }
    let eq = match crate::strutil::find_char(t.as_str(), '=') {
        Some(i) => i,
        None => {
            proof {
                crate::strutil::lemma_first_index_of(t@, '=');
            }
            return LineKind::Bad;
        },
    };
    proof {
        crate::strutil::lemma_first_index_of(t@, '=');
    }
    let key = str_trim(t.as_str().substring_char(0, eq));
    let vraw = str_trim(t.as_str().substring_char(eq + 1, n));
    proof {
        assert(t@.take(eq as int) =~= t@.subrange(0, eq as int));
        assert(t@.skip(eq + 1) =~= t@.subrange(eq + 1, n as int));
    }
    let kl = key.as_str().unicode_len();
    let vl = vraw.as_str().unicode_len();
    if kl == 0 {
        return LineKind::Bad;
    }
    if vl < 2 || vraw.as_str().get_char(0) != '"' || vraw.as_str().get_char(vl - 1) != '"' {
        return LineKind::Bad;
    }
    let mut k: usize = 1;
    while k < vl - 1
        invariant
            vl == vraw@.len(),
            vl >= 2,
            trim_spec(line@).len() > 0,
            !header_line(trim_spec(line@)),
            crate::strutil::first_index_of(trim_spec(line@), '=') >= 0,
            vraw@ == trim_spec(trim_spec(line@).skip(
                crate::strutil::first_index_of(trim_spec(line@), '=') + 1,
            )),
            1 <= k <= vl - 1,
            forall|x: int| 0 < x < k ==> vraw@[x] != '"',
        decreases vl - k,
    {
        if vraw.as_str().get_char(k) == '"' {
            return LineKind::Bad;
        }
        k += 1;
    }
    let value = vraw.as_str().substring_char(1, vl - 1).to_owned();
    proof {
        assert(entry_line(t@));
    }
    LineKind::Entry(key, value)
}


impl Config {
    /// Reads a configuration document from its file text.  The text is
    /// accepted exactly when every line is blank, a table header or an
    /// entry, and no entry stands before the first header.
    pub fn from_text(text: &str) -> (r: Result<Config, CliError>)
        ensures
            r is Ok <==> config_text_ok(text@),
    {
        let ghost all = lines_of(text@);
        let mut toml = EditableToml::new();
        let mut cur_section: Option<String> = None;
        let mut rest: String = text.to_owned();
        let ghost mut p: int = 0;
        loop
            invariant_except_break
                lines_of(rest@) == all.skip(p),
            invariant
                all == lines_of(text@),
                0 <= p <= all.len(),
                forall|i: int| 0 <= i < p ==> config_line_ok(#[trigger] all[i]),
                forall|i: int|
                    0 <= i < p && entry_line(trim_spec(#[trigger] all[i])) ==> exists|j: int|
                        0 <= j < i && header_line(trim_spec(all[j])),
                cur_section is Some ==> exists|j: int|
                    0 <= j < p && header_line(trim_spec(#[trigger] all[j])),
                cur_section is None ==> forall|i: int|
                    0 <= i < p ==> !header_line(trim_spec(#[trigger] all[i])),
            ensures
                forall|i: int| 0 <= i < all.len() ==> config_line_ok(#[trigger] all[i]),
                forall|i: int|
                    0 <= i < all.len() && entry_line(trim_spec(#[trigger] all[i])) ==> exists|
                        j: int,
                    |
                        0 <= j < i && header_line(trim_spec(all[j])),
            decreases rest@.len() + 1,
        {
            proof {
                crate::strutil::lemma_first_index_of(rest@, '\n');
                assert(lines_of(rest@).len() >= 1);
                assert(p < all.len()) by {
                    assert(all.skip(p).len() == all.len() - p);
                }
            }
            let n = rest.as_str().unicode_len();
            let sep = crate::strutil::find_char(rest.as_str(), '\n');
            let has_more = match &sep {
                Some(_) => true,
                None => false,
            };
            let line: String = match &sep {
                Some(i) => rest.as_str().substring_char(0, *i).to_owned(),
                None => rest.clone(),
            };
            proof {
                if has_more {
                    let i = crate::strutil::first_index_of(rest@, '\n');
                    assert(lines_of(rest@)[0] == rest@.take(i));
                    assert(all.skip(p)[0] == all[p]);
                    assert(all[p] == line@);
                } else {
                    assert(lines_of(rest@) =~= seq![rest@]);
                    assert(all.skip(p)[0] == all[p]);
                    assert(all[p] == line@);
                }
            }
            match classify_line(line.as_str()) {
                LineKind::Bad => {
                    proof {
                        assert(!config_line_ok(all[p]));
                    }
                    return Err(CliError::Config(ConfigError::new(ConfigErrorKind::Something)));
                },
                LineKind::Blank => {
                    proof {
                        assert(!entry_line(trim_spec(all[p]))) by {
                            crate::strutil::lemma_first_index_of(trim_spec(line@), '=');
                        }
                        assert(!header_line(trim_spec(all[p])));
                    }
                },
                LineKind::Header(name) => {
                    cur_section = Some(name);
                    proof {
                        lemma_header_not_entry(trim_spec(line@));
                        assert(!entry_line(trim_spec(all[p])));
                        assert(header_line(trim_spec(all[p])));
                    }
                },
                LineKind::Entry(key, value) => {
                    match &cur_section {
                        Some(sec) => {
                            toml.insert_raw(sec.as_str(), key.as_str(), value);
                            proof {
                                let j = choose|j: int|
                                    0 <= j < p && header_line(trim_spec(#[trigger] all[j]));
                                assert(0 <= j < p && header_line(trim_spec(all[j])));
                            }
                        },
                        None => {
                            proof {
                                assert(entry_line(trim_spec(all[p])));
                                assert(!config_text_ok(text@)) by {
                                    if config_text_ok(text@) {
                                        let j = choose|j: int|
                                            0 <= j < p && header_line(
                                                trim_spec(#[trigger] all[j]),
                                            );
                                    }
                                }
                            }
                            return Err(
                                CliError::Config(ConfigError::new(ConfigErrorKind::Something)),
                            );
                        },
                    }
                },
            }
            proof {
                let ghost oldp = p;
                p = p + 1;
                assert forall|i: int|
                    0 <= i < p && entry_line(trim_spec(#[trigger] all[i])) implies exists|j: int|
                    0 <= j < i && header_line(trim_spec(all[j])) by {}
            }
            if !has_more {
                proof {
                    assert(p == all.len()) by {
                        assert(lines_of(rest@) =~= seq![rest@]);
                        assert(all.skip(p - 1).len() == 1);
                    }
                }
                break;
            }
            let next_rest = match sep {
                Some(i) => rest.as_str().substring_char(i + 1, n).to_owned(),
                None => String::new(),
            };
            proof {
                let i = crate::strutil::first_index_of(rest@, '\n');
                assert(lines_of(rest@) == seq![rest@.take(i)] + lines_of(rest@.skip(i + 1)));
                assert(next_rest@ == rest@.skip(i + 1)) by {
                    assert(rest@.subrange(i + 1, rest@.len() as int) =~= rest@.skip(i + 1));
                }
                assert(lines_of(next_rest@) =~= all.skip(p)) by {
                    assert forall|k: int|
                        0 <= k < lines_of(rest@.skip(i + 1)).len() implies lines_of(
                        rest@.skip(i + 1),
                    )[k] == all.skip(p)[k] by {
                        assert(lines_of(rest@.skip(i + 1))[k] == lines_of(rest@)[k + 1]);
                        assert(all.skip(p - 1)[k + 1] == all[p + k]);
                    }
                }
            }
            rest = next_rest;
        }
        Ok(Config { toml })
    }
}

} // verus!
