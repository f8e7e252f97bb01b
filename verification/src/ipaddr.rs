//! Parsing of dotted-quad IPv4 address text into its 32-bit value.
//!
//! An address is four octets separated by single dots; an octet is one to
//! three decimal digits with no leading zero (other than `0` itself) and a
//! value of at most 255.

use vstd::prelude::*;
use vstd::string::StringSliceAdditionalSpecFns;
use crate::groups::{spec_all_digits, spec_digits_val, spec_is_digit};

verus! {

/// Index of the first dot at or after `i`; the length when there is none.
pub open spec fn spec_first_dot(s: Seq<u8>, i: int) -> int
    decreases s.len() - i,
        when 0 <= i <= s.len()
{
    if i >= s.len() {
        s.len() as int
    } else if s[i] == 46 {
        i
    } else {
        spec_first_dot(s, i + 1)
    }
}

/// The first dot lies between `i` and the end.
pub proof fn lemma_first_dot_bounds(s: Seq<u8>, i: int)
    requires
        0 <= i <= s.len(),
    ensures
        i <= spec_first_dot(s, i) <= s.len(),
    decreases s.len() - i,
{
    if i < s.len() && s[i] != 46 {
        lemma_first_dot_bounds(s, i + 1);
    }
}

/// A decimal octet: one to three digits, no leading zero unless it is
/// exactly `0`, value at most 255.
pub open spec fn spec_octet_ok(g: Seq<u8>) -> bool {
    &&& 1 <= g.len() <= 3
    &&& spec_all_digits(g)
    &&& (g.len() > 1 ==> g[0] != 48)
    &&& spec_digits_val(g) <= 255
}

/// 256 raised to `k`.
pub open spec fn spec_pow256(k: int) -> int
    decreases k,
        when k >= 0
{
    if k <= 0 {
        1
    } else {
        256 * spec_pow256(k - 1)
    }
}

/// Value of `k` dot-separated octets spanning the string from `i` to its
/// end, combined most significant first.
pub open spec fn spec_quad_from(s: Seq<u8>, i: int, k: int) -> Option<int>
    decreases s.len() - i,
        when 0 <= i <= s.len() && 1 <= k
        via spec_quad_from_decreases
{
    let e = spec_first_dot(s, i);
    let g = s.subrange(i, e);
    if !spec_octet_ok(g) {
        None
    } else if k == 1 {
        if e == s.len() {
            Some(spec_digits_val(g))
        } else {
            None
        }
    } else if e >= s.len() {
        None
    } else {
        match spec_quad_from(s, e + 1, k - 1) {
            Some(rest) => Some(spec_digits_val(g) * spec_pow256(k - 1) + rest),
            None => None,
        }
    }
}

#[via_fn]
proof fn spec_quad_from_decreases(s: Seq<u8>, i: int, k: int) {
    lemma_first_dot_bounds(s, i);
}

/// The 32-bit value of a dotted-quad address string, if it is one.
pub open spec fn spec_parse_ipv4(s: Seq<u8>) -> Option<int> {
    spec_quad_from(s, 0, 4)
}

/// Index of the first dot at or after `i`.
fn find_dot(b: &[u8], i: usize) -> (r: usize)
    requires
        i <= b.len(),
    ensures
        i <= r <= b@.len(),
        r == spec_first_dot(b@, i as int),
{
    let n = b.len();
    let mut j = i;
    while j < n
        invariant
            i <= j <= n,
            n == b@.len(),
            spec_first_dot(b@, i as int) == spec_first_dot(b@, j as int),
        decreases n - j,
    {
        if b[j] == 46 {
            return j;
        }
        j = j + 1;
    }
    j
}

/// Value of the octet stored at `b[i .. e]`, if it is one.
fn octet_value(b: &[u8], i: usize, e: usize) -> (r: Option<u32>)
    requires
        i <= e <= b.len(),
    ensures
        match r {
            Some(v) => spec_octet_ok(b@.subrange(i as int, e as int)) && v == spec_digits_val(
                b@.subrange(i as int, e as int),
            ),
            None => !spec_octet_ok(b@.subrange(i as int, e as int)),
        },
{
    let ghost g = b@.subrange(i as int, e as int);
    let len = e - i;
    if len < 1 || len > 3 {
        return None;
    }
    if len > 1 && b[i] == 48 {
        proof {
            assert(g[0] == b@[i as int]);
        }
        return None;
    }
    let mut v: u32 = 0;
    let mut j = i;
    proof {
        assert(g.take(0) =~= Seq::<u8>::empty());
    }
    while j < e
        invariant
            i <= j <= e,
            e <= b@.len(),
            e - i <= 3,
            g == b@.subrange(i as int, e as int),
            spec_all_digits(g.take(j - i)),
            v == spec_digits_val(g.take(j - i)),
            v <= 255,
        decreases e - j,
    {
        let d = b[j];
        if d < 48 || d > 57 {
            proof {
                assert(g[j - i] == b@[j as int]);
                assert(!spec_is_digit(g[j - i]));
            }
            return None;
        }
        proof {
            assert(g.take(j - i + 1).drop_last() =~= g.take(j - i));
            assert(g.take(j - i + 1).last() == g[j - i]);
            assert(g[j - i] == b@[j as int]);
        }
        let nv = v * 10 + ((d - 48) as u32);
        if nv > 255 {
            proof {
                assert(spec_digits_val(g.take(j - i + 1)) == nv);
                if spec_all_digits(g) {
                    crate::groups::lemma_digits_val_take(g, j - i + 1);
                    assert(spec_digits_val(g) > 255);
                }
            }
            return None;
        }
        v = nv;
        j = j + 1;
    }
    proof {
        assert(g.take(e - i) =~= g);
        assert forall|x: int| 0 <= x < g.len() implies spec_is_digit(#[trigger] g[x]) by {
            assert(g.take(e - i)[x] == g[x]);
        }
        assert(g[0] == b@[i as int]);
    }
    Some(v)
}

/// The 32-bit value of a dotted-quad address such as `10.0.0.12`; `None`
/// for any other text.
pub fn parse_ipv4(addr: &str) -> (r: Option<u32>)
    ensures
        match r {
            Some(v) => spec_parse_ipv4(addr.spec_bytes()) == Some(v as int),
            None => spec_parse_ipv4(addr.spec_bytes()) is None,
        },
{
    let b = addr.as_bytes();
    let n = b.len();
    let ghost s = addr.spec_bytes();
    let e1 = find_dot(b, 0);
    let o1 = match octet_value(b, 0, e1) {
        Some(v) => v,
        None => {
            return None;
        },
    };
    if e1 >= n {
        return None;
    }
    let e2 = find_dot(b, e1 + 1);
    let o2 = match octet_value(b, e1 + 1, e2) {
        Some(v) => v,
        None => {
            return None;
        },
    };
    if e2 >= n {
        return None;
    }
    let e3 = find_dot(b, e2 + 1);
    let o3 = match octet_value(b, e2 + 1, e3) {
        Some(v) => v,
        None => {
            return None;
        },
    };
    if e3 >= n {
        return None;
    }
    let e4 = find_dot(b, e3 + 1);
    let o4 = match octet_value(b, e3 + 1, e4) {
        Some(v) => v,
        None => {
            return None;
        },
    };
    if e4 < n {
        return None;
    }
    proof {
        assert(spec_pow256(0) == 1);
        assert(spec_pow256(1) == 256);
        assert(spec_pow256(2) == 65536);
        assert(spec_pow256(3) == 16777216);
        assert(spec_quad_from(s, e3 as int + 1, 1) == Some(o4 as int));
        assert(spec_quad_from(s, e2 as int + 1, 2) == Some(o3 * 256 + o4 as int));
        assert(spec_quad_from(s, e1 as int + 1, 3) == Some(
            o2 * 65536 + o3 * 256 + o4 as int,
        ));
        assert(spec_parse_ipv4(s) == Some(o1 * 16777216 + o2 * 65536 + o3 * 256 + o4 as int));
    }
    Some(o1 * 16777216 + o2 * 65536 + o3 * 256 + o4)
}

} // verus!
