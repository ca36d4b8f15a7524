//! The variables a template can refer to: `name`, `date`, `time`, and those
//! the user passes in.
use std::fmt::Write;
use vstd::prelude::*;
use vstd::string::StringExecFns;
use super::cases::{case_named, cased_text, convert_case, formatting_of, words_of, Cases};
use super::config::{Call, ConfigError, ErrV, VariableMap};
use crate::chars::eq_lit;
use super::templates::{add_name, distinct_names, find_name, names_view, set_insert};
use crate::file::tokens::opt_chars;

verus! {

/// An instant as seconds and nanoseconds since the Unix epoch, with the
/// offset from UTC, in seconds, of the place it is read in.
#[derive(Debug, Clone, Copy, PartialEq, Eq, Structural)]
pub struct DateStamp {
    pub secs: i64,
    pub nanos: u32,
    pub offset: i32,
}

/// What strftime-style formatting writes for an instant at a fixed offset,
/// or None where the format, the offset or the instant is not accepted.
pub uninterp spec fn strftime_text(stamp: (i64, u32, i32), format: Seq<char>) -> Option<Seq<char>>;

pub open spec fn stamp_of(d: DateStamp) -> (i64, u32, i32) {
    (d.secs, d.nanos, d.offset)
}

/// Relies on chrono's `DateTime::format` (after `FixedOffset::east_opt` and
/// `TimeZone::timestamp_opt`): the instant written by the strftime-style
/// format; an unknown specifier makes the write fail.
#[verifier::external_body]
fn format_stamp(d: DateStamp, format: &str) -> (r: Option<String>)
    ensures
        opt_chars(r) == strftime_text(stamp_of(d), format@),
{
    let tz = chrono::FixedOffset::east_opt(d.offset)?;
    let dt = chrono::TimeZone::timestamp_opt(&tz, d.secs, d.nanos).single()?;
    let mut out = String::new();
    write!(out, "{}", dt.format(format)).ok()?;
    Some(out)
}

/// The variables of one template instance.
pub struct ConfigArgs {
    /// user variables; a later entry overrides an earlier one of the same name
    pub map: Vec<(String, String)>,
    pub date: DateStamp,
    pub name: String,
}

/// The value of the last entry named `key`.
pub open spec fn lookup(map: Seq<(String, String)>, key: Seq<char>) -> Option<Seq<char>>
    decreases map.len(),
{
    if map.len() == 0 {
        None
    } else if map.last().0@ == key {
        Some(map.last().1@)
    } else {
        lookup(map.drop_last(), key)
    }
}

pub open spec fn date_answer(d: DateStamp, line: int, format: Seq<char>) -> Result<Seq<char>, ErrV> {
    match strftime_text(stamp_of(d), format) {
        Some(t) => Ok(t),
        None => Err(ErrV::InvalidSyntax(line)),
    }
}

impl ConfigArgs {
    /// The variables for a project called `name`, dated `date`.
    pub fn at(name: &str, date: DateStamp) -> (r: Self)
        ensures
            r.name@ == name@,
            r.date == date,
            r.map@.len() == 0,
    {
        let mut n = String::new();
        n.append(name);
        ConfigArgs { map: Vec::new(), date, name: n }
    }

    /// Adds a user variable.
    pub fn insert(&mut self, key: String, value: String)
        ensures
            final(self).map@ == old(self).map@.push((key, value)),
            final(self).date == old(self).date,
            final(self).name == old(self).name,
    {
        self.map.push((key, value));
    }
}

fn lookup_exec(map: &Vec<(String, String)>, key: &str) -> (r: Option<String>)
    ensures
        opt_chars(r) == lookup(map@, key@),
{
    let mut i = map.len();
    assert(map@.subrange(0, i as int) =~= map@);
    while i > 0
        invariant
            i <= map@.len(),
            lookup(map@, key@) == lookup(map@.subrange(0, i as int), key@),
        decreases i,
    {
        assert(map@.subrange(0, i as int).drop_last() =~= map@.subrange(0, i - 1));
        if eq_lit(map[i - 1].0.as_str(), key) {
            return Some(map[i - 1].1.clone());
        }
        i = i - 1;
    }
    None
}

impl VariableMap for ConfigArgs {
    /// `name` is the project's name, or with a format naming a casing that
    /// name in the casing (an unknown casing leaves it as it is); `date` and
    /// `time` format the stamp (by default `%d/%m/%Y` and `%H:%M:%S`);
    /// other names are the user's variables.
    open spec fn answer(&self, line: int, name: Seq<char>, format: Option<Seq<char>>) -> Result<
        Seq<char>,
        ErrV,
    > {
        if name == "name"@ {
            Ok(
                match format {
                    Some(f) => match case_named(f) {
                        Some(c) => cased_text(words_of(self.name@), formatting_of(c)),
                        None => self.name@,
                    },
                    None => self.name@,
                },
            )
        } else if name == "date"@ {
            date_answer(self.date, line, match format {
                Some(f) => f,
                None => "%d/%m/%Y"@,
            })
        } else if name == "time"@ {
            date_answer(self.date, line, match format {
                Some(f) => f,
                None => "%H:%M:%S"@,
            })
        } else {
            match lookup(self.map@, name) {
                Some(t) => Ok(t),
                None => Err(ErrV::UnknownVariable(line, name)),
            }
        }
    }

    open spec fn logs(&self) -> bool {
        false
    }

    open spec fn log(&self) -> Seq<Call> {
        Seq::empty()
    }

    fn map(&mut self, i: usize, v: &str, f: Option<String>) -> (r: Result<String, ConfigError>)
        ensures
            final(self).map@ == old(self).map@,
            final(self).name@ == old(self).name@,
            final(self).date == old(self).date,
    {
        if eq_lit(v, "name") {
            return match f {
                Some(form) => match Cases::from_str(form.as_str()) {
                    Ok(c) => Ok(convert_case(self.name.as_str(), c)),
                    Err(_) => Ok(self.name.clone()),
                },
                None => Ok(self.name.clone()),
            };
        }
        let is_date = eq_lit(v, "date");
        if is_date || eq_lit(v, "time") {
            let text = match &f {
                Some(form) => format_stamp(self.date, form.as_str()),
                None => if is_date {
                    format_stamp(self.date, "%d/%m/%Y")
                } else {
                    format_stamp(self.date, "%H:%M:%S")
                },
            };
            return match text {
                Some(t) => Ok(t),
                None => Err(ConfigError::InvalidSyntax(i)),
            };
        }
        match lookup_exec(&self.map, v) {
            Some(t) => Ok(t),
            None => {
                let mut name = String::new();
                name.append(v);
                Err(ConfigError::UnknownVariable(i, name))
            },
        }
    }
}

/// A map that answers every variable with empty text and records each
/// lookup it is asked for: line, name and format, in order.
pub struct VarCounter {
    pub seen: Vec<(usize, String, Option<String>)>,
}

pub open spec fn seen_view(v: Seq<(usize, String, Option<String>)>) -> Seq<Call> {
    v.map_values(|c: (usize, String, Option<String>)| (c.0 as int, c.1@, opt_chars(c.2)))
}

impl VarCounter {
    pub fn new() -> (r: Self)
        ensures
            r.seen@.len() == 0,
    {
        VarCounter { seen: Vec::new() }
    }
}

impl VariableMap for VarCounter {
    open spec fn answer(&self, line: int, name: Seq<char>, format: Option<Seq<char>>) -> Result<
        Seq<char>,
        ErrV,
    > {
        Ok(Seq::empty())
    }

    open spec fn logs(&self) -> bool {
        true
    }

    open spec fn log(&self) -> Seq<Call> {
        seen_view(self.seen@)
    }

    fn map(&mut self, i: usize, v: &str, f: Option<String>) -> (r: Result<String, ConfigError>)
        ensures
            seen_view(final(self).seen@) == seen_view(old(self).seen@) + seq![
                (i as int, v@, opt_chars(f)),
            ],
    {
        let ghost f0 = f;
        self.seen.push((i, v.to_owned(), f));
        assert(seen_view(self.seen@) =~= seen_view(old(self).seen@) + seq![
            (i as int, v@, opt_chars(f0)),
        ]);
        Ok(String::new())
    }
}

/// Variables with the formats they were asked with.
pub type Expected = Seq<(Seq<char>, Seq<Seq<char>>)>;

/// The place of the last entry named `name`.
pub open spec fn expected_index(ex: Expected, name: Seq<char>) -> Option<int>
    decreases ex.len(),
{
    if ex.len() == 0 {
        None
    } else if ex.last().0 == name {
        Some(ex.len() - 1)
    } else {
        expected_index(ex.drop_last(), name)
    }
}

proof fn lemma_expected_index(ex: Expected, name: Seq<char>)
    ensures
        expected_index(ex, name) matches Some(i) ==> 0 <= i < ex.len() && ex[i].0 == name,
        expected_index(ex, name) is None ==> forall|j: int| 0 <= j < ex.len() ==> ex[j].0 != name,
    decreases ex.len(),
{
    if ex.len() > 0 {
        lemma_expected_index(ex.drop_last(), name);
        assert forall|j: int| 0 <= j < ex.len() - 1 implies ex.drop_last()[j] == ex[j] by {}
    }
}

/// One more lookup: a new name is added with its format, if any; a known
/// name gains the format unless it has it already.
pub open spec fn expect_add(ex: Expected, name: Seq<char>, format: Option<Seq<char>>) -> Expected {
    match expected_index(ex, name) {
        Some(i) => match format {
            Some(f) => ex.update(i, (name, set_insert(ex[i].1, f))),
            None => ex,
        },
        None => ex.push(
            (
                name,
                match format {
                    Some(f) => seq![f],
                    None => Seq::empty(),
                },
            ),
        ),
    }
}

/// The variables asked for, each once in order of first lookup, with the
/// distinct formats it was asked with.
pub open spec fn expected_of(log: Seq<Call>) -> Expected
    decreases log.len(),
{
    if log.len() == 0 {
        Seq::empty()
    } else {
        expect_add(expected_of(log.drop_last()), log.last().1, log.last().2)
    }
}

pub open spec fn expected_view(v: Seq<(String, Vec<String>)>) -> Expected {
    v.map_values(|e: (String, Vec<String>)| (e.0@, names_view(e.1@)))
}

impl VarCounter {
    /// The variables looked up, each once, with their distinct formats.
    pub fn expected(&self) -> (r: Vec<(String, Vec<String>)>)
        ensures
            expected_view(r@) == expected_of(seen_view(self.seen@)),
    {
        let ghost log = seen_view(self.seen@);
        let mut r: Vec<(String, Vec<String>)> = Vec::new();
        let mut k: usize = 0;
        assert(expected_view(r@) =~= expected_of(log.subrange(0, 0)));
        while k < self.seen.len()
            invariant
                0 <= k <= self.seen@.len(),
                log == seen_view(self.seen@),
                expected_view(r@) == expected_of(log.subrange(0, k as int)),
                forall|j: int| 0 <= j < r@.len() ==> distinct_names(#[trigger] names_view(r@[j].1@)),
            decreases self.seen.len() - k,
        {
            let ghost ex = expected_view(r@);
            let ghost r0 = r@;
            assert(log.subrange(0, k + 1).drop_last() =~= log.subrange(0, k as int));
            assert(log[k as int] == (self.seen@[k as int].0 as int, self.seen@[k as int].1@, opt_chars(self.seen@[k as int].2)));
            let name = &self.seen[k].1;
            let mut i = r.len();
            assert(ex.subrange(0, i as int) =~= ex);
            while i > 0 && !eq_lit(r[i - 1].0.as_str(), name.as_str())
                invariant
                    i <= r@.len(),
                    r@ == r0,
                    ex == expected_view(r0),
                    expected_index(ex, name@) == expected_index(ex.subrange(0, i as int), name@),
                decreases i,
            {
                assert(ex.subrange(0, i as int).drop_last() =~= ex.subrange(0, i - 1));
                assert(ex[i - 1].0 == r@[i - 1].0@);
                i = i - 1;
            }
            if i == 0 {
                assert(ex.subrange(0, 0) =~= Seq::<(Seq<char>, Seq<Seq<char>>)>::empty());
                let mut formats: Vec<String> = Vec::new();
                match &self.seen[k].2 {
                    Some(f) => formats.push(f.clone()),
                    None => {},
                }
                assert(names_view(formats@) =~= match opt_chars(self.seen@[k as int].2) {
                    Some(f) => seq![f],
                    None => Seq::<Seq<char>>::empty(),
                });
                r.push((name.clone(), formats));
                assert(expected_view(r@) =~= ex.push((name@, names_view(formats@))));
            } else {
                let j = i - 1;
                assert(ex.subrange(0, i as int).last() == ex[j as int]);
                assert(expected_index(ex, name@) == Some(j as int));
                match &self.seen[k].2 {
                    Some(f) => {
                        let (n, mut formats) = r.remove(j);
                        assert(distinct_names(names_view(r0[j as int].1@)));
                        add_name(&mut formats, f.clone());
                        r.insert(j, (n, formats));
                        assert(expected_view(r@) =~= ex.update(
                            j as int,
                            (name@, set_insert(ex[j as int].1, f@)),
                        ));
                        assert forall|q: int| 0 <= q < r@.len() implies distinct_names(
                            #[trigger] names_view(r@[q].1@),
                        ) by {
                            if q != j {
                                assert(r@[q] == r0[q]);
                            }
                        }
                    },
                    None => {},
                }
            }
            k = k + 1;
        }
        assert(log.subrange(0, self.seen@.len() as int) =~= log);
        r
    }
}

} // verus!
