//! Deterministic assignment of hosts to groups.
//!
//! A monitored host is named by a one-character prefix followed by a decimal
//! number, as in `h12`. Hosts are grouped in runs of `GROUP_SIZE` consecutive
//! numeric ids: host number `id` belongs to group `(id - 1) / GROUP_SIZE`.

use vstd::prelude::*;
use vstd::string::StringSliceAdditionalSpecFns;

verus! {

/// Side length of every group matrix: group indices lie in `[0, NUM_GROUPS)`.
pub const NUM_GROUPS: usize = 6;

/// How many consecutive host ids share one group.
pub const GROUP_SIZE: u64 = 9;

/// The group index of a host with numeric id `id` (ids start at 1).
pub open spec fn spec_group_of_id(id: u64) -> int {
    (id - 1) / (GROUP_SIZE as int)
}

/// Group index of a host from its numeric id.
pub fn group_of_id(id: u64) -> (g: u64)
    requires
        id >= 1,
    ensures
        g == spec_group_of_id(id),
{
    (id - 1) / GROUP_SIZE
}

/// A decimal digit byte, `'0'` to `'9'`.
pub open spec fn spec_is_digit(b: u8) -> bool {
    48 <= b <= 57
}

/// Value of a string of decimal digit bytes, most significant first.
pub open spec fn spec_digits_val(s: Seq<u8>) -> int
    decreases s.len(),
{
    if s.len() == 0 {
        0
    } else {
        spec_digits_val(s.drop_last()) * 10 + (s.last() - 48)
    }
}

/// Every byte is a decimal digit.
pub open spec fn spec_all_digits(s: Seq<u8>) -> bool {
    forall|i: int| 0 <= i < s.len() ==> spec_is_digit(#[trigger] s[i])
}

/// A host name has the monitored shape when a one-byte prefix is followed by
/// at least one decimal digit.
pub open spec fn spec_host_shape(name: Seq<u8>) -> bool {
    name.len() >= 2 && spec_all_digits(name.skip(1))
}

/// The numeric suffix of a host name of the monitored shape.
pub open spec fn spec_host_value(name: Seq<u8>) -> int {
    spec_digits_val(name.skip(1))
}

/// Numeric id of a host name: its decimal suffix, when the shape holds and
/// the value fits in `u64`.
pub open spec fn spec_parse_host(name: Seq<u8>) -> Option<u64> {
    if spec_host_shape(name) && spec_host_value(name) <= u64::MAX {
        Some(spec_host_value(name) as u64)
    } else {
        None
    }
}

/// Group of a host name: defined exactly when the numeric id parses, is at
/// least 1, and its group falls below `NUM_GROUPS`.
pub open spec fn spec_host_group(name: Seq<u8>) -> Option<int> {
    match spec_parse_host(name) {
        Some(id) => if id >= 1 && spec_group_of_id(id) < NUM_GROUPS {
            Some(spec_group_of_id(id))
        } else {
            None
        },
        None => None,
    }
}

/// The value of a digit string is non-negative.
pub proof fn lemma_digits_val_nonneg(s: Seq<u8>)
    requires
        spec_all_digits(s),
    ensures
        spec_digits_val(s) >= 0,
    decreases s.len(),
{
    if s.len() > 0 {
        lemma_digits_val_nonneg(s.drop_last());
    }
}

/// A prefix of a digit string never exceeds the whole string's value.
pub proof fn lemma_digits_val_take(s: Seq<u8>, k: int)
    requires
        spec_all_digits(s),
        0 <= k <= s.len(),
    ensures
        spec_digits_val(s.take(k)) <= spec_digits_val(s),
    decreases s.len() - k,
{
    if k == s.len() {
        assert(s.take(k) =~= s);
    } else {
        assert(s.take(k + 1).drop_last() =~= s.take(k));
        assert(s.take(k + 1).last() == s[k]);
        assert(spec_all_digits(s.take(k)));
        lemma_digits_val_nonneg(s.take(k));
        lemma_digits_val_take(s, k + 1);
    }
}

/// Numeric suffix of a host name such as `h12`. `None` when the name is not
/// a one-byte prefix followed by decimal digits, or the suffix overflows
/// `u64`.
pub fn parse_host_numeric(name: &str) -> (r: Option<u64>)
    ensures
        r == spec_parse_host(name.spec_bytes()),
{
    let b: &[u8] = name.as_bytes();
    let n: usize = b.len();
    if n < 2 {
        return None;
    }
    let ghost bs = name.spec_bytes();
    let mut acc: u64 = 0;
    let mut i: usize = 1;
    while i < n
        invariant
            1 <= i <= n,
            n == bs.len(),
            b@ == bs,
            bs == name.spec_bytes(),
            spec_all_digits(bs.subrange(1, i as int)),
            acc == spec_digits_val(bs.subrange(1, i as int)),
        decreases n - i,
    {
        let d: u8 = b[i];
        if d < 48 || d > 57 {
            proof {
                assert(bs.skip(1)[i - 1] == bs[i as int]);
                assert(!spec_is_digit(bs.skip(1)[i - 1]));
                assert(!spec_all_digits(bs.skip(1)));
                assert(!spec_host_shape(bs));
            }
            return None;
        }
        let wide: u128 = (acc as u128) * 10 + ((d - 48) as u128);
        proof {
            assert(bs.subrange(1, i + 1).drop_last() =~= bs.subrange(1, i as int));
            assert(bs.subrange(1, i + 1).last() == bs[i as int]);
        }
        if wide > u64::MAX as u128 {
            proof {
                if spec_host_shape(bs) {
                    assert(spec_digits_val(bs.subrange(1, i + 1)) == acc * 10 + (bs[i as int]
                        - 48));
                    assert(bs.subrange(1, i + 1) =~= bs.skip(1).take(i as int));
                    lemma_digits_val_take(bs.skip(1), i as int);
                    assert(spec_host_value(bs) >= spec_digits_val(bs.subrange(1, i + 1)));
                    assert(spec_host_value(bs) > u64::MAX);
                }
            }
            return None;
        }
        acc = wide as u64;
        i = i + 1;
    }
    proof {
        assert(bs.subrange(1, n as int) =~= bs.skip(1));
    }
    Some(acc)
}

/// Group of a monitored host name, when the name parses to a numeric id at
/// least 1 whose group falls below `NUM_GROUPS`.
pub fn host_group(name: &str) -> (r: Option<usize>)
    ensures
        match r {
            Some(g) => spec_host_group(name.spec_bytes()) == Some(g as int),
            None => spec_host_group(name.spec_bytes()) is None,
        },
{
    match parse_host_numeric(name) {
        None => None,
        Some(id) => {
            if id < 1 {
                return None;
            }
            let g = group_of_id(id);
            if g >= NUM_GROUPS as u64 {
                None
            } else {
                Some(g as usize)
            }
        },
    }
}

} // verus!
