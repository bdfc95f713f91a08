//! Datafile naming: the well-known active file name, the passive extension,
//! and parsing a serial number out of a file name's stem.

use vstd::prelude::*;
use vstd::string::StrSliceExecFns;

use crate::error::KvError;
use crate::error::Result;
use crate::text::all_digits;
use crate::text::digit_val;
use crate::text::digits_value;
use crate::text::is_digit;
use crate::text::lemma_digits_value_push;

verus! {

/// Name of the single writable datafile in a store directory.
pub const ACTIVE_FILE_NAME: &'static str = "log.active";

/// Extension of the read-only, serial-numbered datafiles.
pub const PASSIVE_EXT: &'static str = "passive";

/// Position right after the last `.` of `name`, scanning down from `k`;
/// `name.len()` when there is no dot.
pub open spec fn dot_split(name: Seq<char>, k: int) -> int
    decreases k,
{
    if k <= 0 {
        name.len() as int
    } else if name[k - 1] == '.' {
        k - 1
    } else {
        dot_split(name, k - 1)
    }
}

/// The stem of a file name: everything before the last dot, or the whole
/// name when there is no dot.
pub open spec fn stem_of(name: Seq<char>) -> Seq<char> {
    name.subrange(0, dot_split(name, name.len() as int))
}

/// Whether a file name carries a serial number: its stem is one or more
/// decimal digits denoting a value that fits in `u64`.
pub open spec fn has_serial_number(name: Seq<char>) -> bool {
    let stem = stem_of(name);
    stem.len() > 0 && all_digits(stem) && digits_value(stem) <= u64::MAX
}

/// The serial number carried by a file name (meaningful only when
/// `has_serial_number(name)`).
pub open spec fn serial_number_of(name: Seq<char>) -> int {
    digits_value(stem_of(name))
}

/// Parses `s[0..end)` as a decimal number. Returns `Some` exactly when the
/// range is nonempty, all digits, and the value fits in `u64`.
pub(crate) fn parse_digit_range(s: &str, end: usize) -> (r: Option<u64>)
    requires
        end <= s@.len(),
    ensures
        match r {
            Some(n) => {
                let stem = s@.subrange(0, end as int);
                stem.len() > 0 && all_digits(stem) && digits_value(stem) == n
            },
            None => {
                let stem = s@.subrange(0, end as int);
                !(stem.len() > 0 && all_digits(stem) && digits_value(stem) <= u64::MAX)
            },
        },
{
    if end == 0 {
        return None;
    }
    let ghost stem = s@.subrange(0, end as int);
    let mut i: usize = 0;
    let mut acc: u64 = 0;
    let mut over = false;
    let ghost mut g: int = 0;
    loop
        invariant
            end <= s@.len(),
            0 <= i <= end,
            stem == s@.subrange(0, end as int),
            all_digits(stem.subrange(0, i as int)),
            g == digits_value(stem.subrange(0, i as int)),
            0 <= g,
            !over ==> g == acc as int,
            over ==> g > u64::MAX,
        ensures
            i == end,
            all_digits(stem),
            g == digits_value(stem),
            0 <= g,
            !over ==> g == acc as int,
            over ==> g > u64::MAX,
        decreases end - i,
    {
        if i >= end {
            proof {
                assert(stem.subrange(0, i as int) =~= stem);
            }
            break ;
        }
        let c = s.get_char(i);
        if !((c as u32) >= 48 && (c as u32) <= 57) {
            assert(stem[i as int] == s@[i as int]);
            assert(!is_digit(stem[i as int]));
            return None;
        }
        assert(stem[i as int] == s@[i as int]);
        assert(is_digit(stem[i as int]));
        let d = ((c as u32) - 48) as u64;
        let ghost g0: int = g;
        let ghost dv: int = digit_val(stem[i as int]);
        proof {
            assert(stem.subrange(0, i as int + 1) =~= stem.subrange(0, i as int).push(
                stem[i as int],
            ));
            lemma_digits_value_push(stem.subrange(0, i as int), stem[i as int]);
            g = g0 * 10 + dv;
            assert(g >= g0) by (nonlinear_arith)
                requires
                    0 <= g0,
                    0 <= dv,
                    g == g0 * 10 + dv,
            ;
        }
        if !over {
            match acc.checked_mul(10) {
                Some(m) => {
                    match m.checked_add(d) {
                        Some(a2) => {
                            acc = a2;
                        },
                        None => {
                            over = true;
                        },
                    }
                },
                None => {
                    over = true;
                },
            }
            proof {
                if over {
                    assert(g > u64::MAX);
                }
            }
        }
        i += 1;
    }
    if over {
        None
    } else {
        Some(acc)
    }
}

/// Get the serial number from the name of a passive datafile.
///
/// Succeeds exactly when the name's stem is a nonempty run of decimal digits
/// whose value fits in `u64`; any other name reports `InvalidDatafileName`.
pub fn get_serial_number(name: &str) -> (r: Result<u64>)
    ensures
        match r {
            Ok(n) => has_serial_number(name@) && n == serial_number_of(name@),
            Err(e) => e == KvError::InvalidDatafileName && !has_serial_number(name@),
        },
{
    let len = name.unicode_len();
    // find the position right after the last dot, as `dot_split` does
    let mut k = len;
    let stem_end: usize;
    loop
        invariant
            len == name@.len(),
            0 <= k <= len,
            dot_split(name@, len as int) == dot_split(name@, k as int),
        ensures
            0 <= k <= len,
            dot_split(name@, len as int) == dot_split(name@, k as int),
            k == 0 || name@[k as int - 1] == '.',
        decreases k,
    {
        if k == 0 {
            break ;
        }
        let c = name.get_char(k - 1);
        if c == '.' {
            break ;
        }
        k -= 1;
    }
    if k == 0 {
        stem_end = len;
        assert(dot_split(name@, len as int) == len as int);
    } else {
        stem_end = k - 1;
        assert(dot_split(name@, k as int) == k - 1);
    }
    assert(stem_of(name@) == name@.subrange(0, stem_end as int));
    match parse_digit_range(name, stem_end) {
        Some(n) => Ok(n),
        None => Err(KvError::InvalidDatafileName),
    }
}

} // verus!
