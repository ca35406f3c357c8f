use vstd::prelude::*;

use crate::dates::Duration;
use crate::error::{CliError, ConfigError, ConfigErrorKind};
use crate::setting::config::{
    burn_unit, moratorium_num, moratorium_ok, moratorium_unit, sections_text, EditableToml,
};
use crate::strutil::{digits_val, parse_u32_digits, str_eq, str_trim, trim_spec};

verus! {

/// An earlier shape of the configuration keys, with the grace period under
/// the name `burn.after`.
#[derive(Debug)]
pub enum KeyKind {
    BurnAfter,
    SweepPeriod,
    SweepTime,
}

pub open spec fn key_kind_text(k: KeyKind) -> Seq<char> {
    match k {
        KeyKind::BurnAfter => "burn.after"@,
        KeyKind::SweepPeriod => "sweep.period"@,
        KeyKind::SweepTime => "sweep.time"@,
    }
}

pub open spec fn key_kind_pair(k: KeyKind) -> (Seq<char>, Seq<char>) {
    match k {
        KeyKind::BurnAfter => ("burn"@, "after"@),
        KeyKind::SweepPeriod => ("sweep"@, "period"@),
        KeyKind::SweepTime => ("sweep"@, "time"@),
    }
}

impl KeyKind {
    /// Reads a key name, surrounding whitespace discounted.
    pub fn from(key: &str) -> (r: Result<KeyKind, ConfigError>)
        ensures
            match r {
                Ok(k) => trim_spec(key@) == key_kind_text(k),
                Err(e) => e.kind == ConfigErrorKind::InvalidKey,
            },
    {
        let t = str_trim(key);
        if str_eq(t.as_str(), "burn.after") {
            Ok(KeyKind::BurnAfter)
        } else if str_eq(t.as_str(), "sweep.period") {
            Ok(KeyKind::SweepPeriod)
        } else if str_eq(t.as_str(), "sweep.time") {
            Ok(KeyKind::SweepTime)
        } else {
            Err(ConfigError::new(ConfigErrorKind::InvalidKey))
        }
    }

    pub fn to_str(&self) -> (r: &'static str)
        ensures
            r@ == key_kind_text(*self),
    {
        match *self {
            KeyKind::BurnAfter => "burn.after",
            KeyKind::SweepPeriod => "sweep.period",
            KeyKind::SweepTime => "sweep.time",
        }
    }

    pub fn to_pair(&self) -> (r: (&'static str, &'static str))
        ensures
            r.0@ == key_kind_pair(*self).0,
            r.1@ == key_kind_pair(*self).1,
    {
        match *self {
            KeyKind::BurnAfter => ("burn", "after"),
            KeyKind::SweepPeriod => ("sweep", "period"),
            KeyKind::SweepTime => ("sweep", "time"),
        }
    }
}

/// Whether a raw value fits this key shape's grammar.
pub open spec fn key_kind_value_ok(k: KeyKind, raw: Seq<char>) -> bool {
    let t = trim_spec(raw);
    match k {
        KeyKind::BurnAfter => moratorium_ok(t, false),
        KeyKind::SweepPeriod => t == "daily"@ || t == "weekly"@,
        KeyKind::SweepTime => crate::setting::config::time_ok(t),
    }
}

/// The stored form of an accepted value under this key shape.
pub open spec fn key_kind_value_norm(k: KeyKind, raw: Seq<char>) -> Seq<char> {
    let t = trim_spec(raw);
    match k {
        KeyKind::BurnAfter => moratorium_num(t) + " "@ + moratorium_unit(t),
        KeyKind::SweepPeriod => t,
        KeyKind::SweepTime => t,
    }
}

/// An earlier shape of the configuration document.
#[derive(Debug)]
pub struct Config {
    pub toml: EditableToml,
}

impl Config {
    /// Stores a value under a key shape's table and entry name.
    pub fn insert_deeply(table: &mut EditableToml, key: &KeyKind, value: String)
        ensures
            final(table).lookup(key_kind_pair(*key).0, key_kind_pair(*key).1) == Some(value@),
            forall|s: Seq<char>, k: Seq<char>|
                !(s == key_kind_pair(*key).0 && k == key_kind_pair(*key).1)
                    ==> #[trigger] final(table).lookup(s, k) == old(table).lookup(s, k),
    {
        let (first, second) = key.to_pair();
        table.insert_raw(first, second, value);
    }

    /// The configuration this shape starts from.
    pub fn default() -> (r: Config)
        ensures
            r.toml.lookup("burn"@, "after"@) == Some("2 weeks"@),
            r.toml.lookup("sweep"@, "period"@) == Some("daily"@),
            r.toml.lookup("sweep"@, "time"@) == Some("00:00"@),
    {
        proof {
            lemma_key_kind_pairs_distinct();
        }
        let mut table = EditableToml::new();
        Self::insert_deeply(&mut table, &KeyKind::BurnAfter, "2 weeks".to_owned());
        Self::insert_deeply(&mut table, &KeyKind::SweepPeriod, "daily".to_owned());
        Self::insert_deeply(&mut table, &KeyKind::SweepTime, "00:00".to_owned());
        Config { toml: table }
    }

    /// Stores a pre-validated value under a key.
    pub fn set(self, key: &KeyKind, value: String) -> (r: Result<Config, ConfigError>)
        ensures
            match r {
                Ok(c) => {
                    &&& c.toml.lookup(key_kind_pair(*key).0, key_kind_pair(*key).1) == Some(
                        value@,
                    )
                    &&& forall|s: Seq<char>, k: Seq<char>|
                        !(s == key_kind_pair(*key).0 && k == key_kind_pair(*key).1)
                            ==> #[trigger] c.toml.lookup(s, k) == self.toml.lookup(s, k)
                },
                Err(_) => false,
            },
    {
        let mut toml = self.toml;
        Self::insert_deeply(&mut toml, key, value);
        Ok(Config { toml })
    }

    /// Renders the document in the stored file form.
    pub fn to_string(&self) -> (r: String)
        ensures
            r@ == sections_text(self.toml.sections@),
    {
        let c = Config { toml: EditableToml { sections: Vec::new() } };
        let wrapped = crate::setting::config::Config { toml: EditableToml { sections: Vec::new() } };
        let mut out = String::new();
        let ss = &self.toml.sections;
        let n = ss.len();
        let mut i: usize = 0;
        proof {
            assert(ss@.take(0) =~= Seq::<crate::setting::config::TomlSection>::empty());
        }
        while i < n
            invariant
                n == ss@.len(),
                i <= n,
                out@ == sections_text(ss@.take(i as int)),
            decreases n - i,
        {
            proof {
                assert(ss@.take(i + 1).drop_last() =~= ss@.take(i as int));
                assert(ss@.take(i + 1).last() == ss@[i as int]);
            }
            out.append("[");
            out.append(ss[i].name.as_str());
            out.append("]\n");
            let es = &ss[i].entries;
            let m = es.len();
            let mut j: usize = 0;
            let ghost before_entries = out@;
            proof {
                assert(es@.take(0) =~= Seq::<crate::setting::config::TomlEntry>::empty());
            }
            while j < m
                invariant
                    m == es@.len(),
                    j <= m,
                    out@ == before_entries + crate::setting::config::entries_text(
                        es@.take(j as int),
                    ),
                decreases m - j,
            {
                proof {
                    assert(es@.take(j + 1).drop_last() =~= es@.take(j as int));
                    assert(es@.take(j + 1).last() == es@[j as int]);
                }
                out.append(es[j].key.as_str());
                out.append(" = \"");
                out.append(es[j].value.as_str());
                out.append("\"\n");
                j += 1;
            }
            proof {
                assert(es@.take(m as int) =~= es@);
            }
            i += 1;
        }
        proof {
            assert(ss@.take(n as int) =~= ss@);
        }
        out
    }

    /// Checks one value against this key shape's grammar, returning the
    /// stored form.
    pub fn validate(key: &KeyKind, value: &str) -> (r: Result<String, CliError>)
        ensures
            match r {
                Ok(v) => key_kind_value_ok(*key, value@) && v@ == key_kind_value_norm(
                    *key,
                    value@,
                ),
                Err(e) => {
                    &&& !key_kind_value_ok(*key, value@)
                    &&& e matches CliError::Config(ce) && ce.kind == old_invalid_kind(*key)
                },
            },
    {
        let t = str_trim(value);
        match *key {
            KeyKind::BurnAfter => {
                match crate::setting::config::capture_moratorium(t.as_str(), false) {
                    Some((num, unit)) => {
                        let mut v = num;
                        v.append(" ");
                        v.append(unit.as_str());
                        Ok(v)
                    },
                    None => Err(
                        CliError::Config(ConfigError::new(ConfigErrorKind::BurnMoratorium)),
                    ),
                }
            },
            KeyKind::SweepPeriod => {
                if str_eq(t.as_str(), "daily") || str_eq(t.as_str(), "weekly") {
                    Ok(t)
                } else {
                    Err(CliError::Config(ConfigError::new(ConfigErrorKind::SweepPeriod)))
                }
            },
            KeyKind::SweepTime => {
                match crate::setting::config::Config::to_naive_time(t.as_str()) {
                    Some(_) => Ok(t),
                    None => Err(CliError::Config(ConfigError::new(ConfigErrorKind::SweepTime))),
                }
            },
        }
    }

    /// Turns a validated grace-period value into a duration.
    pub fn extract_burn_after(after: &str) -> (r: Result<Duration, CliError>)
        ensures
            match r {
                Ok(d) => {
                    &&& key_kind_value_ok(KeyKind::BurnAfter, after@)
                    &&& digits_val(moratorium_num(trim_spec(after@))) <= u32::MAX
                    &&& d.seconds == digits_val(moratorium_num(trim_spec(after@)))
                        * (if burn_unit_is_week(moratorium_unit(trim_spec(after@))) {
                        604800int
                    } else {
                        86400int
                    })
                },
                Err(_) => !key_kind_value_ok(KeyKind::BurnAfter, after@) || digits_val(
                    moratorium_num(trim_spec(after@)),
                ) > u32::MAX,
            },
    {
        let t = str_trim(after);
        let (num, unit) = match crate::setting::config::capture_moratorium(t.as_str(), false) {
            Some(p) => p,
            None => {
                return Err(
                    CliError::Config(ConfigError::new(ConfigErrorKind::BurnMoratorium)),
                );
            },
        };
        let n = match parse_u32_digits(num.as_str()) {
            Some(v) => v,
            None => {
                proof {
                    crate::strutil::lemma_digit_prefix_len_bounds(t@);
                    assert(crate::strutil::all_digits(num@)) by {
                        assert(num@.len() > 0);
                    }
                }
                return Err(CliError::ParseInt(num));
            },
        };
        let nl: i64 = n as i64;
        if str_eq(unit.as_str(), "week") || str_eq(unit.as_str(), "weeks") {
            Ok(Duration::weeks(nl))
        } else {
            proof {
                assert(burn_unit(unit@));
            }
            Ok(Duration::days(nl))
        }
    }
}

/// Whether a grace-period unit means weeks.
pub open spec fn burn_unit_is_week(u: Seq<char>) -> bool {
    u == "week"@ || u == "weeks"@
}

/// The error kind this key shape reports for a bad value.
pub open spec fn old_invalid_kind(k: KeyKind) -> ConfigErrorKind {
    match k {
        KeyKind::BurnAfter => ConfigErrorKind::BurnMoratorium,
        KeyKind::SweepPeriod => ConfigErrorKind::SweepPeriod,
        KeyKind::SweepTime => ConfigErrorKind::SweepTime,
    }
}

/// The key pairs of distinct key shapes differ.
proof fn lemma_key_kind_pairs_distinct()
    ensures
        "burn"@ != "sweep"@,
        "after"@ != "period"@,
        "after"@ != "time"@,
        "period"@ != "time"@,
{
    reveal_strlit("burn");
    reveal_strlit("sweep");
    reveal_strlit("after");
    reveal_strlit("period");
    reveal_strlit("time");
    assert("burn"@.len() == 4);
    assert("sweep"@.len() == 5);
    assert("after"@.len() == 5);
    assert("period"@.len() == 6);
    assert("time"@.len() == 4);
    assert("after"@[0] == 'a' && "period"@[0] == 'p' && "time"@[0] == 't');
}

} // verus!
