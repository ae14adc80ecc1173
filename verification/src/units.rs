use vstd::prelude::*;

use crate::chars::{is_ascii_alphabetic, is_letter};
use crate::duration::Duration;
use crate::error::{Error, ErrorModel};
use crate::text::chars_of;

verus! {

/// A unit name: one or more ASCII letters.
pub open spec fn valid_unit_name(s: Seq<char>) -> bool {
    s.len() > 0 && forall|i: int| 0 <= i < s.len() ==> is_letter(#[trigger] s[i])
}

/// The built-in units, each mapped to its length in nanoseconds.
pub open spec fn default_units() -> Map<Seq<char>, nat> {
    Map::empty()
        .insert("h"@, 3_600_000_000_000)
        .insert("hr"@, 3_600_000_000_000)
        .insert("hrs"@, 3_600_000_000_000)
        .insert("hour"@, 3_600_000_000_000)
        .insert("hours"@, 3_600_000_000_000)
        .insert("m"@, 60_000_000_000)
        .insert("min"@, 60_000_000_000)
        .insert("mins"@, 60_000_000_000)
        .insert("minute"@, 60_000_000_000)
        .insert("minutes"@, 60_000_000_000)
        .insert("s"@, 1_000_000_000)
        .insert("sec"@, 1_000_000_000)
        .insert("secs"@, 1_000_000_000)
        .insert("second"@, 1_000_000_000)
        .insert("seconds"@, 1_000_000_000)
        .insert("ms"@, 1_000_000)
        .insert("msec"@, 1_000_000)
        .insert("msecs"@, 1_000_000)
        .insert("millisecond"@, 1_000_000)
        .insert("milliseconds"@, 1_000_000)
}

/// The units a parser knows, each with its length.
///
/// Its view maps each unit name to its length in nanoseconds. Every name in
/// it is a valid unit name, and each name stands once.
///
/// Names and lengths are kept side by side in two vectors and searched in
/// order, not in a `HashMap<String, Duration>`: the specification that the
/// verifier has of a map keyed by `String` does not tie a lookup to the
/// characters of the key, so what such a map returns could not be proved,
/// while a search that compares the characters of each name can be.
pub struct ParserUnits {
    names: Vec<String>,
    values: Vec<Duration>,
}

impl ParserUnits {
    #[verifier::type_invariant]
    spec fn well_formed(self) -> bool {
        &&& self.names.len() == self.values.len()
        &&& forall|i: int, j: int|
            #![trigger self.names[i], self.names[j]]
            0 <= i < j < self.names.len() ==> self.names[i]@ != self.names[j]@
        &&& forall|i: int| 0 <= i < self.names.len() ==> valid_unit_name(#[trigger] self.names[i]@)
    }

    spec fn holds(self, k: Seq<char>) -> bool {
        exists|i: int| 0 <= i < self.names.len() && #[trigger] self.names[i]@ == k
    }

    spec fn index_of(self, k: Seq<char>) -> int {
        choose|i: int| 0 <= i < self.names.len() && #[trigger] self.names[i]@ == k
    }

    /// The units, by name, with their lengths in nanoseconds.
    pub closed spec fn units(self) -> Map<Seq<char>, nat> {
        Map::new(|k: Seq<char>| self.holds(k), |k: Seq<char>| self.values[self.index_of(k)]@)
    }

    /// A unit set with no units at all, not even the built-in ones.
    pub fn new() -> (u: ParserUnits)
        ensures
            u.units() == Map::<Seq<char>, nat>::empty(),
            u.units().dom().finite(),
    {
        let u = ParserUnits { names: Vec::new(), values: Vec::new() };
        assert(u.units() =~= Map::<Seq<char>, nat>::empty());
        u
    }

    /// The index of the unit named `key`, if there is one.
    fn find(&self, key: &String) -> (r: Option<usize>)
        ensures
            r matches Some(i) ==> i < self.names.len() && self.names[i as int]@ == key@,
            r is None ==> !self.holds(key@),
    {
        let n = self.names.len();
        let mut i: usize = 0;
        while i < n
            invariant
                n == self.names.len(),
                i <= n,
                forall|j: int| 0 <= j < i ==> #[trigger] self.names[j]@ != key@,
            decreases n - i,
        {
            if self.names[i] == *key {
                return Some(i);
            }
            i = i + 1;
        }
        None
    }

    /// Whether every character of `chars` is an ASCII letter, and there is one.
    fn is_valid_name(chars: &Vec<char>) -> (b: bool)
        ensures
            b == valid_unit_name(chars@),
    {
        if chars.len() == 0 {
            return false;
        }
        let mut i: usize = 0;
        while i < chars.len()
            invariant
                i <= chars.len(),
                forall|j: int| 0 <= j < i ==> is_letter(#[trigger] chars@[j]),
            decreases chars.len() - i,
        {
            if !is_ascii_alphabetic(chars[i]) {
                return false;
            }
            i = i + 1;
        }
        true
    }

    /// Adds the unit `name` with length `value`, or gives an existing unit of
    /// that name the new length.
    ///
    /// A name that is empty or holds anything but ASCII letters is refused
    /// with `InvalidUnit`, and the units stay as they were.
    pub fn add_unit(&mut self, name: &str, value: Duration) -> (r: Result<(), Error>)
        ensures
            r is Ok <==> valid_unit_name(name@),
            r is Ok ==> final(self).units() == old(self).units().insert(name@, value@),
            r matches Err(e) ==> final(self).units() == old(self).units() && e@
                == ErrorModel::InvalidUnit(name@),
            forall|k: Seq<char>| #[trigger]
                final(self).units().contains_key(k) ==> valid_unit_name(k),
    {
        proof {
            use_type_invariant(&*self);
            assert forall|k: Seq<char>| #[trigger] self.units().contains_key(k) implies valid_unit_name(
                k,
            ) by {
                let j = self.index_of(k);
                assert(self.names[j]@ == k);
            }
        }
        let chars = chars_of(name);
        if !Self::is_valid_name(&chars) {
            return Err(Error::InvalidUnit(name.to_owned()));
        }
        let key = name.to_owned();
        let found = self.find(&key);
        let mut units = ParserUnits::new();
        std::mem::swap(&mut units, self);
        proof {
            use_type_invariant(&units);
        }
        let ghost before = units;
        let ParserUnits { mut names, mut values } = units;
        match found {
            Some(i) => {
                values.set(i, value);
                let updated = ParserUnits { names, values };
                proof {
                    assert forall|k: Seq<char>| #[trigger]
                        updated.units().contains_key(k) == before.units().insert(
                            name@,
                            value@,
                        ).contains_key(k) by {
                        if k == name@ {
                            assert(updated.names[i as int]@ == k);
                        }
                    }
                    assert forall|k: Seq<char>| #[trigger]
                        updated.units().contains_key(k) implies updated.units()[k]
                        == before.units().insert(name@, value@)[k] by {
                        let j = updated.index_of(k);
                        assert(updated.names[j]@ == k);
                        if k == name@ {
                            assert(j == i);
                        } else {
                            let jb = before.index_of(k);
                            assert(before.names[jb]@ == k);
                            assert(jb == j);
                        }
                    }
                    assert(updated.units() =~= before.units().insert(name@, value@));
                }
                *self = updated;
            },
            None => {
                names.push(key);
                values.push(value);
                let updated = ParserUnits { names, values };
                proof {
                    let last = before.names.len() as int;
                    assert(updated.names[last]@ == name@);
                    assert forall|k: Seq<char>| #[trigger]
                        updated.units().contains_key(k) == before.units().insert(
                            name@,
                            value@,
                        ).contains_key(k) by {
                        if before.holds(k) {
                            let j = before.index_of(k);
                            assert(updated.names[j]@ == k);
                        }
                        if updated.holds(k) && k != name@ {
                            let j = updated.index_of(k);
                            assert(before.names[j]@ == k);
                        }
                    }
                    assert forall|k: Seq<char>| #[trigger]
                        updated.units().contains_key(k) implies updated.units()[k]
                        == before.units().insert(name@, value@)[k] by {
                        let j = updated.index_of(k);
                        assert(updated.names[j]@ == k);
                        if k == name@ {
                            assert(j == last);
                        } else {
                            let jb = before.index_of(k);
                            assert(before.names[jb]@ == k);
                            assert(updated.names[jb]@ == k);
                            assert(jb == j);
                        }
                    }
                    assert(updated.units() =~= before.units().insert(name@, value@));
                }
                *self = updated;
            },
        }
        Ok(())
    }

    /// The length of the unit named `key`, if there is one.
    pub(crate) fn get_duration(&self, key: &String) -> (r: Option<&Duration>)
        ensures
            match r {
                Some(d) => self.units().contains_key(key@) && d@ == self.units()[key@],
                None => !self.units().contains_key(key@),
            },
    {
        proof {
            use_type_invariant(self);
        }
        match self.find(key) {
            Some(i) => {
                proof {
                    let j = self.index_of(key@);
                    assert(self.names[j]@ == key@);
                    assert(j == i);
                }
                Some(&self.values[i])
            },
            None => None,
        }
    }
}

impl Default for ParserUnits {
    /// The built-in units: `ms`, `msec(s)`, `millisecond(s)`; `s`, `sec(s)`,
    /// `second(s)`; `m`, `min(s)`, `minute(s)`; `h`, `hr(s)`, `hour(s)`.
    fn default() -> (u: ParserUnits)
        ensures
            u.units() == default_units(),
    {
        let mut u = ParserUnits::new();
        let hour = Duration::from_secs(3600);
        let minute = Duration::from_secs(60);
        let second = Duration::from_secs(1);
        let milli = Duration::from_millis(1);
        proof {
            reveal_strlit("h");
            reveal_strlit("hr");
            reveal_strlit("hrs");
            reveal_strlit("hour");
            reveal_strlit("hours");
            reveal_strlit("m");
            reveal_strlit("min");
            reveal_strlit("mins");
            reveal_strlit("minute");
            reveal_strlit("minutes");
            reveal_strlit("s");
            reveal_strlit("sec");
            reveal_strlit("secs");
            reveal_strlit("second");
            reveal_strlit("seconds");
            reveal_strlit("ms");
            reveal_strlit("msec");
            reveal_strlit("msecs");
            reveal_strlit("millisecond");
            reveal_strlit("milliseconds");
        }
        let _ = u.add_unit("h", hour);
        let _ = u.add_unit("hr", hour);
        let _ = u.add_unit("hrs", hour);
        let _ = u.add_unit("hour", hour);
        let _ = u.add_unit("hours", hour);
        let _ = u.add_unit("m", minute);
        let _ = u.add_unit("min", minute);
        let _ = u.add_unit("mins", minute);
        let _ = u.add_unit("minute", minute);
        let _ = u.add_unit("minutes", minute);
        let _ = u.add_unit("s", second);
        let _ = u.add_unit("sec", second);
        let _ = u.add_unit("secs", second);
        let _ = u.add_unit("second", second);
        let _ = u.add_unit("seconds", second);
        let _ = u.add_unit("ms", milli);
        let _ = u.add_unit("msec", milli);
        let _ = u.add_unit("msecs", milli);
        let _ = u.add_unit("millisecond", milli);
        let _ = u.add_unit("milliseconds", milli);
        u
    }
}

} // verus!
