//! Request parameters and the typed getters the handlers use.
//!
//! Parameters are name/value pairs; a getter looks a name up and, for the
//! numeric variants, parses the value as an unsigned decimal, failing on
//! anything but digits or on overflow.

use vstd::prelude::*;
use vstd::string::StringSliceAdditionalSpecFns;
use crate::text::str_eq;

verus! {

/// Name/value pairs of one request, in arrival order; a lookup returns the
/// first match.
pub struct Params {
    pub entries: Vec<(String, String)>,
}

/// First value recorded for `name`.
pub open spec fn spec_param(entries: Seq<(String, String)>, name: Seq<char>) -> Option<Seq<char>>
    decreases entries.len(),
{
    if entries.len() == 0 {
        None
    } else if entries[0].0@ == name {
        Some(entries[0].1@)
    } else {
        spec_param(entries.skip(1), name)
    }
}

impl Params {
    /// No parameters.
    pub fn new() -> (r: Params)
        ensures
            r.entries@.len() == 0,
    {
        Params { entries: Vec::new() }
    }

    /// Record a pair (later duplicates of a name are shadowed).
    pub fn push(&mut self, name: String, value: String)
        ensures
            final(self).entries@ == old(self).entries@.push((name, value)),
    {
        self.entries.push((name, value));
    }

    /// Look a name up.
    pub fn get(&self, name: &str) -> (r: Option<&String>)
        ensures
            match r {
                Some(v) => spec_param(self.entries@, name@) == Some(v@),
                None => spec_param(self.entries@, name@) is None,
            },
    {
        let n = self.entries.len();
        let mut i: usize = 0;
        proof {
            assert(self.entries@.skip(0) =~= self.entries@);
        }
        while i < n
            invariant
                i <= n,
                n == self.entries@.len(),
                spec_param(self.entries@, name@) == spec_param(
                    self.entries@.skip(i as int),
                    name@,
                ),
            decreases n - i,
        {
            if str_eq(self.entries[i].0.as_str(), name) {
                proof {
                    assert(self.entries@.skip(i as int)[0] == self.entries@[i as int]);
                }
                return Some(&self.entries[i].1);
            }
            proof {
                assert(self.entries@.skip(i as int)[0] == self.entries@[i as int]);
                assert(self.entries@.skip(i as int).skip(1) =~= self.entries@.skip(i as int + 1));
            }
            i = i + 1;
        }
        proof {
            assert(self.entries@.skip(n as int) =~= Seq::<(String, String)>::empty());
        }
        None
    }
}

/// Whether the byte image is one or more decimal digits.
pub open spec fn is_digits(b: Seq<u8>) -> bool {
    b.len() > 0 && forall|i: int| 0 <= i < b.len() ==> 48 <= #[trigger] b[i] <= 57
}

/// Value of a string of decimal digit bytes.
pub open spec fn dec_value(b: Seq<u8>) -> int
    decreases b.len(),
{
    if b.len() == 0 {
        0
    } else {
        dec_value(b.drop_last()) * 10 + (b.last() - 48)
    }
}

/// On digits the value is nonnegative and grows along prefixes.
proof fn lemma_dec_value_monotone(b: Seq<u8>, i: int)
    requires
        forall|k: int| 0 <= k < b.len() ==> 48 <= #[trigger] b[k] <= 57,
        0 <= i <= b.len(),
    ensures
        0 <= dec_value(b.take(i)) <= dec_value(b),
    decreases b.len() - i,
{
    if i == b.len() {
        assert(b.take(i) =~= b);
        lemma_dec_value_nonneg(b);
    } else {
        lemma_dec_value_monotone(b, i + 1);
        assert(b.take(i + 1).drop_last() =~= b.take(i));
        assert(b.take(i + 1).last() == b[i]);
        lemma_dec_value_nonneg(b.take(i));
        assert(dec_value(b.take(i + 1)) == dec_value(b.take(i)) * 10 + (b[i] - 48));
        assert(dec_value(b.take(i)) <= dec_value(b.take(i)) * 10);
    }
}

proof fn lemma_dec_value_nonneg(b: Seq<u8>)
    requires
        forall|k: int| 0 <= k < b.len() ==> 48 <= #[trigger] b[k] <= 57,
    ensures
        dec_value(b) >= 0,
    decreases b.len(),
{
    if b.len() > 0 {
        assert(forall|k: int|
            0 <= k < b.drop_last().len() ==> 48 <= #[trigger] b.drop_last()[k] <= 57);
        lemma_dec_value_nonneg(b.drop_last());
    }
}

/// Parse an unsigned decimal. Succeeds exactly on one or more digits whose
/// value fits, and returns that value.
pub fn parse_u32(s: &str) -> (r: Option<u32>)
    ensures
        match r {
            Some(v) => is_digits(s.spec_bytes()) && dec_value(s.spec_bytes()) == v,
            None => !(is_digits(s.spec_bytes()) && dec_value(s.spec_bytes()) <= u32::MAX),
        },
{
    let bs = s.as_bytes();
    let n = bs.len();
    if n == 0 {
        return None;
    }
    let mut acc: u64 = 0;
    let mut i: usize = 0;
    while i < n
        invariant
            0 < n == bs@.len(),
            bs@ == s.spec_bytes(),
            i <= n,
            acc <= u32::MAX,
            acc == dec_value(bs@.take(i as int)),
            forall|k: int| 0 <= k < i ==> 48 <= #[trigger] bs@[k] <= 57,
        decreases n - i,
    {
        let d = bs[i];
        if d < 48 || d > 57 {
            return None;
        }
        let next = acc * 10 + ((d - 48) as u64);
        proof {
            assert(bs@.take(i as int + 1).drop_last() =~= bs@.take(i as int));
            assert(bs@.take(i as int + 1).last() == bs@[i as int]);
        }
        if next > 0xffff_ffff {
            proof {
                if is_digits(bs@) && dec_value(bs@) <= u32::MAX {
                    lemma_dec_value_monotone(bs@, i as int + 1);
                }
            }
            return None;
        }
        acc = next;
        i = i + 1;
    }
    proof {
        assert(bs@.take(n as int) =~= bs@);
    }
    Some(acc as u32)
}

/// Parse an unsigned decimal into 64 bits; as `parse_u32`, wider.
pub fn parse_u64(s: &str) -> (r: Option<u64>)
    ensures
        match r {
            Some(v) => is_digits(s.spec_bytes()) && dec_value(s.spec_bytes()) == v,
            None => !(is_digits(s.spec_bytes()) && dec_value(s.spec_bytes()) <= u64::MAX),
        },
{
    let bs = s.as_bytes();
    let n = bs.len();
    if n == 0 {
        return None;
    }
    let mut acc: u128 = 0;
    let mut i: usize = 0;
    while i < n
        invariant
            0 < n == bs@.len(),
            bs@ == s.spec_bytes(),
            i <= n,
            acc <= u64::MAX,
            acc == dec_value(bs@.take(i as int)),
            forall|k: int| 0 <= k < i ==> 48 <= #[trigger] bs@[k] <= 57,
        decreases n - i,
    {
        let d = bs[i];
        if d < 48 || d > 57 {
            return None;
        }
        let next = acc * 10 + ((d - 48) as u128);
        proof {
            assert(bs@.take(i as int + 1).drop_last() =~= bs@.take(i as int));
            assert(bs@.take(i as int + 1).last() == bs@[i as int]);
        }
        if next > 0xffff_ffff_ffff_ffff {
            proof {
                if is_digits(bs@) && dec_value(bs@) <= u64::MAX {
                    lemma_dec_value_monotone(bs@, i as int + 1);
                }
            }
            return None;
        }
        acc = next;
        i = i + 1;
    }
    proof {
        assert(bs@.take(n as int) =~= bs@);
    }
    Some(acc as u64)
}

/// Copy the string parameter `name` into `value`. Returns whether the
/// parameter exists; on a miss `value` is untouched.
pub fn get_from_params_string(params: &Params, name: &str, value: &mut String) -> (r: bool)
    ensures
        r == (spec_param(params.entries@, name@) is Some),
        r ==> Some(final(value)@) == spec_param(params.entries@, name@),
        !r ==> final(value)@ == old(value)@,
{
    match params.get(name) {
        Some(v) => {
            *value = crate::group::clone_string(v);
            true
        },
        None => false,
    }
}

/// Parse the parameter `name` as a `u32` into `value`. Returns false, with
/// `value` untouched, when the parameter is absent, not all digits, or out
/// of range.
pub fn get_from_params_u32(params: &Params, name: &str, value: &mut u32) -> (r: bool)
    ensures
        ({
            match spec_param(params.entries@, name@) {
                None => !r && *final(value) == *old(value),
                Some(v) => {
                    let b = crate::text::chars_bytes(v);
                    &&& r == (is_digits(b) && dec_value(b) <= u32::MAX)
                    &&& r ==> *final(value) == dec_value(b)
                    &&& !r ==> *final(value) == *old(value)
                },
            }
        }),
{
    match params.get(name) {
        Some(v) => {
            match parse_u32(v.as_str()) {
                Some(parsed) => {
                    *value = parsed;
                    true
                },
                None => false,
            }
        },
        None => false,
    }
}

/// Parse the parameter `name` as a `u64` into `value`; as the `u32` form.
pub fn get_from_params_u64(params: &Params, name: &str, value: &mut u64) -> (r: bool)
    ensures
        ({
            match spec_param(params.entries@, name@) {
                None => !r && *final(value) == *old(value),
                Some(v) => {
                    let b = crate::text::chars_bytes(v);
                    &&& r == (is_digits(b) && dec_value(b) <= u64::MAX)
                    &&& r ==> *final(value) == dec_value(b)
                    &&& !r ==> *final(value) == *old(value)
                },
            }
        }),
{
    match params.get(name) {
        Some(v) => {
            match parse_u64(v.as_str()) {
                Some(parsed) => {
                    *value = parsed;
                    true
                },
                None => false,
            }
        },
        None => false,
    }
}

/// Read the checkbox parameter `name`: `value` becomes true exactly when
/// the parameter is present with the value "on" (an absent parameter means
/// the box was off). Always succeeds.
pub fn get_from_params_bool(params: &Params, name: &str, value: &mut bool) -> (r: bool)
    ensures
        r,
        *final(value) == (spec_param(params.entries@, name@) == Some("on"@)),
{
    match params.get(name) {
        Some(v) => {
            *value = str_eq(v.as_str(), "on");
        },
        None => {
            *value = false;
        },
    }
    true
}

} // verus!
