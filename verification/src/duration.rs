use vstd::prelude::*;

verus! {

/// Nanoseconds in one second.
pub const NANOS_PER_SEC: u32 = 1_000_000_000;

/// Nanoseconds in one millisecond.
pub const NANOS_PER_MILLI: u32 = 1_000_000;

/// Milliseconds in one second.
pub const MILLIS_PER_SEC: u64 = 1_000;

/// The longest span a `Duration` holds, in nanoseconds:
/// `u64::MAX` seconds and 999 999 999 nanoseconds.
pub open spec fn max_nanos() -> nat {
    (u64::MAX as nat) * 1_000_000_000 + 999_999_999
}

/// A span of time: whole seconds and the nanoseconds past them.
///
/// Its view is the span's length in nanoseconds. The nanosecond part is
/// always below one second, so two durations are equal exactly when their
/// views are.
#[derive(Clone, Copy, Debug, PartialEq, Eq, Structural)]
pub struct Duration {
    secs: u64,
    nanos: u32,
}

impl View for Duration {
    type V = nat;

    closed spec fn view(&self) -> nat {
        (self.secs as nat) * 1_000_000_000 + self.nanos as nat
    }
}

impl Duration {
    #[verifier::type_invariant]
    spec fn nanos_below_one_second(self) -> bool {
        self.nanos < NANOS_PER_SEC
    }

    /// The empty span.
    pub fn zero() -> (d: Duration)
        ensures
            d@ == 0,
    {
        Duration { secs: 0, nanos: 0 }
    }

    /// The longest span a `Duration` holds.
    pub fn max() -> (d: Duration)
        ensures
            d@ == max_nanos(),
    {
        Duration { secs: u64::MAX, nanos: NANOS_PER_SEC - 1 }
    }

    /// A span of `secs` seconds and `nanos` nanoseconds; nanoseconds beyond
    /// one second carry into the seconds.
    pub fn new(secs: u64, nanos: u32) -> (d: Duration)
        requires
            secs + nanos / 1_000_000_000 <= u64::MAX,
        ensures
            d@ == secs * 1_000_000_000 + nanos,
    {
        if nanos < NANOS_PER_SEC {
            Duration { secs, nanos }
        } else {
            let extra = (nanos / NANOS_PER_SEC) as u64;
            let rest = nanos % NANOS_PER_SEC;
            assert(nanos == extra * 1_000_000_000 + rest);
            Duration { secs: secs + extra, nanos: rest }
        }
    }

    /// A span of `secs` whole seconds.
    pub fn from_secs(secs: u64) -> (d: Duration)
        ensures
            d@ == secs * 1_000_000_000,
    {
        Duration { secs, nanos: 0 }
    }

    /// A span of `millis` milliseconds.
    pub fn from_millis(millis: u64) -> (d: Duration)
        ensures
            d@ == millis * 1_000_000,
    {
        let secs = millis / MILLIS_PER_SEC;
        let rest = (millis % MILLIS_PER_SEC) as u32;
        assert(millis == secs * 1000 + rest);
        Duration { secs, nanos: rest * NANOS_PER_MILLI }
    }

    /// A span of `nanos` nanoseconds.
    pub fn from_nanos(nanos: u64) -> (d: Duration)
        ensures
            d@ == nanos,
    {
        let secs = nanos / (NANOS_PER_SEC as u64);
        let rest = (nanos % (NANOS_PER_SEC as u64)) as u32;
        assert(nanos == secs * 1_000_000_000 + rest) by {
            vstd::arithmetic::div_mod::lemma_fundamental_div_mod(nanos as int, 1_000_000_000);
        }
        Duration { secs, nanos: rest }
    }

    /// The whole seconds of the span.
    pub fn as_secs(&self) -> (s: u64)
        ensures
            s == self@ / 1_000_000_000,
    {
        proof {
            use_type_invariant(self);
        }
        self.secs
    }

    /// The nanoseconds of the span past its whole seconds.
    pub fn subsec_nanos(&self) -> (n: u32)
        ensures
            n == self@ % 1_000_000_000,
    {
        proof {
            use_type_invariant(self);
        }
        self.nanos
    }

    /// The sum of two spans, or `None` where it exceeds the longest span.
    pub fn checked_add(self, rhs: Duration) -> (r: Option<Duration>)
        ensures
            r is Some <==> self@ + rhs@ <= max_nanos(),
            r matches Some(d) ==> d@ == self@ + rhs@,
    {
        proof {
            use_type_invariant(self);
            use_type_invariant(rhs);
        }
        let secs = match self.secs.checked_add(rhs.secs) {
            Some(s) => s,
            None => return None,
        };
        let nanos = self.nanos + rhs.nanos;
        if nanos >= NANOS_PER_SEC {
            match secs.checked_add(1) {
                Some(s) => Some(Duration { secs: s, nanos: nanos - NANOS_PER_SEC }),
                None => None,
            }
        } else {
            Some(Duration { secs, nanos })
        }
    }

    /// The span `rhs` times over, or `None` where it exceeds the longest span.
    pub fn checked_mul(self, rhs: u32) -> (r: Option<Duration>)
        ensures
            r is Some <==> self@ * rhs <= max_nanos(),
            r matches Some(d) ==> d@ == self@ * rhs,
    {
        proof {
            use_type_invariant(self);
        }
        let s = self.secs;
        let n = self.nanos;
        proof {
            assert((n as u64) * (rhs as u64) <= 999_999_999 * 4_294_967_295) by (nonlinear_arith)
                requires
                    n < 1_000_000_000,
                    rhs <= 4_294_967_295,
            ;
        }
        let total_nanos: u64 = (n as u64) * (rhs as u64);
        let extra_secs = total_nanos / (NANOS_PER_SEC as u64);
        let rest = (total_nanos % (NANOS_PER_SEC as u64)) as u32;
        let ghost whole: int = s * rhs;
        proof {
            assert(self@ * rhs == whole * 1_000_000_000 + total_nanos) by (nonlinear_arith)
                requires
                    self@ == s * 1_000_000_000 + n,
                    whole == s * rhs,
                    total_nanos == n * rhs,
            ;
            assert(total_nanos == extra_secs * 1_000_000_000 + rest) by {
                vstd::arithmetic::div_mod::lemma_fundamental_div_mod(total_nanos as int, 1_000_000_000);
            }
        }
        match s.checked_mul(rhs as u64) {
            None => {
                proof {
                    assert(whole * 1_000_000_000 > max_nanos()) by (nonlinear_arith)
                        requires
                            whole > u64::MAX,
                    ;
                }
                None
            },
            Some(m) => match m.checked_add(extra_secs) {
                None => None,
                Some(total) => Some(Duration { secs: total, nanos: rest }),
            },
        }
    }
}

} // verus!
