//! Resolution of IPv4 addresses to monitored hosts and their groups.
//!
//! An `AddressMap` is built once from `(address, host)` pairs, validating at
//! construction that every host name parses to a numeric id whose group lies
//! below `NUM_GROUPS`; it is then shared read-only by every scan worker.

use vstd::prelude::*;
use crate::groups::{host_group, spec_host_group, NUM_GROUPS};

verus! {

/// One address record: an IPv4 address, the host owning it, and that host's
/// group.
#[derive(Debug)]
pub struct AddrEntry {
    pub ip: u32,
    pub host: String,
    pub group: usize,
}

/// The entry for `ip`, scanning from the front.
pub open spec fn spec_lookup(s: Seq<AddrEntry>, ip: u32) -> Option<AddrEntry>
    decreases s.len(),
{
    if s.len() == 0 {
        None
    } else if s[0].ip == ip {
        Some(s[0])
    } else {
        spec_lookup(s.drop_first(), ip)
    }
}

/// Whether `ip` belongs to a monitored host.
pub open spec fn spec_resolves(s: Seq<AddrEntry>, ip: u32) -> bool {
    spec_lookup(s, ip) is Some
}

/// Group of the host owning `ip`, when `ip` resolves.
pub open spec fn spec_group_of_ip(s: Seq<AddrEntry>, ip: u32) -> Option<int> {
    match spec_lookup(s, ip) {
        Some(e) => Some(e.group as int),
        None => None,
    }
}

/// The host of the last pair carrying `ip`, the way repeated insertion into
/// a mapping leaves the latest binding in force.
pub open spec fn spec_last_host(ps: Seq<(u32, String)>, ip: u32) -> Option<Seq<char>>
    decreases ps.len(),
{
    if ps.len() == 0 {
        None
    } else if ps.last().0 == ip {
        Some(ps.last().1@)
    } else {
        spec_last_host(ps.drop_last(), ip)
    }
}

/// An entry list models a pair list: each address resolves to the host of
/// its last pair, and to nothing else.
pub open spec fn spec_map_models(s: Seq<AddrEntry>, ps: Seq<(u32, String)>) -> bool {
    forall|ip: u32|
        match spec_last_host(ps, ip) {
            Some(h) => match #[trigger] spec_lookup(s, ip) {
                Some(e) => e.host@ == h,
                None => false,
            },
            None => spec_lookup(s, ip) is None,
        }
}

/// Replacing the entry at `i` by one with the same address redirects that
/// address alone, provided addresses are pairwise distinct.
pub proof fn lemma_lookup_update(s: Seq<AddrEntry>, i: int, e: AddrEntry, q: u32)
    requires
        0 <= i < s.len(),
        e.ip == s[i].ip,
        forall|a: int, b: int| 0 <= a < b < s.len() ==> (#[trigger] s[a]).ip != (#[trigger] s[b]).ip,
    ensures
        spec_lookup(s.update(i, e), q) == if q == e.ip {
            Some(e)
        } else {
            spec_lookup(s, q)
        },
    decreases s.len(),
{
    if i == 0 {
        assert(s.update(i, e)[0] == e);
        if q != e.ip {
            assert(s.update(i, e).drop_first() =~= s.drop_first());
        }
    } else {
        assert(s.update(i, e)[0] == s[0]);
        assert(s.update(i, e).drop_first() =~= s.drop_first().update(i - 1, e));
        assert(forall|a: int, b: int|
            0 <= a < b < s.drop_first().len() ==> (#[trigger] s.drop_first()[a]).ip != (
            #[trigger] s.drop_first()[b]).ip);
        lemma_lookup_update(s.drop_first(), i - 1, e, q);
        assert(s[0].ip != s[i].ip);
    }
}

/// Appending an entry binds its address only when that address was unbound.
pub proof fn lemma_lookup_push(s: Seq<AddrEntry>, e: AddrEntry, q: u32)
    ensures
        spec_lookup(s.push(e), q) == if q == e.ip && spec_lookup(s, q) is None {
            Some(e)
        } else if spec_lookup(s, q) is Some {
            spec_lookup(s, q)
        } else {
            Option::<AddrEntry>::None
        },
    decreases s.len(),
{
    if s.len() == 0 {
        assert(s.push(e)[0] == e);
        assert(s.push(e).drop_first() =~= Seq::<AddrEntry>::empty());
    } else {
        assert(s.push(e)[0] == s[0]);
        assert(s.push(e).drop_first() =~= s.drop_first().push(e));
        lemma_lookup_push(s.drop_first(), e, q);
    }
}

/// A found entry is one of the list's entries.
pub proof fn lemma_lookup_index(s: Seq<AddrEntry>, ip: u32)
    requires
        spec_lookup(s, ip) is Some,
    ensures
        exists|i: int| 0 <= i < s.len() && s[i] == spec_lookup(s, ip)->Some_0,
    decreases s.len(),
{
    if s.len() > 0 {
        if s[0].ip == ip {
            assert(s[0] == spec_lookup(s, ip)->Some_0);
        } else {
            lemma_lookup_index(s.drop_first(), ip);
            let i = choose|i: int|
                0 <= i < s.drop_first().len() && s.drop_first()[i] == spec_lookup(
                    s.drop_first(),
                    ip,
                )->Some_0;
            assert(s[i + 1] == spec_lookup(s, ip)->Some_0);
        }
    }
}

/// Fatal configuration faults found while building an `AddressMap`.
#[derive(Debug)]
pub enum ConfigError {
    /// A monitored host name has no usable numeric suffix, or its group
    /// falls outside `[0, NUM_GROUPS)`.
    BadHostId { host: String },
}

impl ConfigError {
    /// Short operator-facing description.
    pub fn message(&self) -> &'static str {
        match self {
            ConfigError::BadHostId { .. } => "host name has no numeric suffix usable for group assignment",
        }
    }
}

/// Immutable mapping from IPv4 address to monitored host, with each host's
/// group precomputed and validated.
#[derive(Debug)]
pub struct AddressMap {
    pub entries: Vec<AddrEntry>,
}

impl View for AddressMap {
    type V = Seq<AddrEntry>;

    open spec fn view(&self) -> Seq<AddrEntry> {
        self.entries@
    }
}

impl AddressMap {
    /// Addresses are pairwise distinct, and every entry's group is the one
    /// its host name determines.
    pub open spec fn wf(&self) -> bool {
        &&& forall|a: int, b: int|
            0 <= a < b < self@.len() ==> (#[trigger] self@[a]).ip != (#[trigger] self@[b]).ip
        &&& forall|i: int|
            0 <= i < self@.len() ==> spec_host_group(
                vstd::utf8::encode_utf8((#[trigger] self@[i]).host@),
            ) == Some(self@[i].group as int)
    }

    /// Index of the entry for `ip`, if any.
    fn find_ip(&self, ip: u32) -> (r: Option<usize>)
        ensures
            match r {
                Some(i) => i < self@.len() && self@[i as int].ip == ip && spec_lookup(self@, ip)
                    == Some(self@[i as int]),
                None => spec_lookup(self@, ip) is None && forall|k: int|
                    0 <= k < self@.len() ==> (#[trigger] self@[k]).ip != ip,
            },
    {
        let n = self.entries.len();
        let mut i: usize = 0;
        proof {
            assert(self@.skip(0) =~= self@);
        }
        while i < n
            invariant
                i <= n,
                n == self@.len(),
                spec_lookup(self@, ip) == spec_lookup(self@.skip(i as int), ip),
                forall|k: int| 0 <= k < i ==> (#[trigger] self@[k]).ip != ip,
            decreases n - i,
        {
            proof {
                assert(self@.skip(i as int)[0] == self@[i as int]);
                assert(self@.skip(i as int).drop_first() =~= self@.skip(i as int + 1));
            }
            if self.entries[i].ip == ip {
                return Some(i);
            }
            i = i + 1;
        }
        proof {
            assert(self@.skip(n as int) =~= Seq::<AddrEntry>::empty());
        }
        None
    }

    /// Whether `ip` belongs to a monitored host.
    pub fn contains_ip(&self, ip: u32) -> (r: bool)
        ensures
            r == spec_resolves(self@, ip),
    {
        match self.find_ip(ip) {
            Some(_) => true,
            None => false,
        }
    }

    /// Group of the host owning `ip`; `None` when `ip` is not monitored.
    pub fn group_of_ip(&self, ip: u32) -> (r: Option<usize>)
        ensures
            match r {
                Some(g) => spec_group_of_ip(self@, ip) == Some(g as int),
                None => spec_group_of_ip(self@, ip) is None,
            },
    {
        match self.find_ip(ip) {
            Some(i) => Some(self.entries[i].group),
            None => None,
        }
    }

    /// Number of address records.
    pub fn len(&self) -> (n: usize)
        ensures
            n == self@.len(),
    {
        self.entries.len()
    }

    /// Build the mapping from `(address, host)` pairs, the later pair
    /// winning when one address appears twice. Fails, naming the offending
    /// host, exactly when some host name yields no group.
    pub fn build(pairs: &Vec<(u32, String)>) -> (r: Result<AddressMap, ConfigError>)
        ensures
            match r {
                Ok(m) => m.wf() && spec_map_models(m@, pairs@) && forall|i: int|
                    0 <= i < pairs@.len() ==> spec_host_group(
                        vstd::utf8::encode_utf8((#[trigger] pairs@[i]).1@),
                    ) is Some,
                Err(ConfigError::BadHostId { host }) => exists|i: int|
                    0 <= i < pairs@.len() && (#[trigger] pairs@[i]).1@ == host@
                        && spec_host_group(vstd::utf8::encode_utf8(pairs@[i].1@)) is None,
            },
    {
        let mut m = AddressMap { entries: Vec::new() };
        let n = pairs.len();
        let mut k: usize = 0;
        proof {
            assert(pairs@.take(0) =~= Seq::<(u32, String)>::empty());
        }
        while k < n
            invariant
                k <= n,
                n == pairs@.len(),
                m.wf(),
                spec_map_models(m@, pairs@.take(k as int)),
                forall|i: int|
                    0 <= i < k ==> spec_host_group(
                        vstd::utf8::encode_utf8((#[trigger] pairs@[i]).1@),
                    ) is Some,
            decreases n - k,
        {
            let ip = pairs[k].0;
            let host: &String = &pairs[k].1;
            let g = match host_group(host.as_str()) {
                Some(g) => g,
                None => {
                    return Err(ConfigError::BadHostId { host: host.clone() });
                },
            };
            let ghost old_m = m@;
            let e = AddrEntry { ip, host: host.clone(), group: g };
            match m.find_ip(ip) {
                Some(i) => {
                    m.entries[i] = e;
                    proof {
                        assert(m@ =~= old_m.update(i as int, e));
                        assert forall|q: u32| #[trigger]
                            spec_lookup(m@, q) == (if q == ip {
                                Some(e)
                            } else {
                                spec_lookup(old_m, q)
                            }) by {
                            lemma_lookup_update(old_m, i as int, e, q);
                        }
                    }
                },
                None => {
                    m.entries.push(e);
                    proof {
                        assert(m@ =~= old_m.push(e));
                        assert forall|q: u32| #[trigger]
                            spec_lookup(m@, q) == (if q == ip {
                                Some(e)
                            } else {
                                spec_lookup(old_m, q)
                            }) by {
                            lemma_lookup_push(old_m, e, q);
                        }
                    }
                },
            }
            proof {
                assert(pairs@.take(k + 1).drop_last() =~= pairs@.take(k as int));
                assert(pairs@.take(k + 1).last() == pairs@[k as int]);
                assert forall|q: u32|
                    match spec_last_host(pairs@.take(k + 1), q) {
                        Some(h) => match #[trigger] spec_lookup(m@, q) {
                            Some(en) => en.host@ == h,
                            None => false,
                        },
                        None => spec_lookup(m@, q) is None,
                    } by {
                    if q != ip {
                        assert(spec_lookup(old_m, q) == spec_lookup(m@, q));
                    }
                }
            }
            k = k + 1;
        }
        proof {
            assert(pairs@.take(n as int) =~= pairs@);
        }
        Ok(m)
    }
}

/// Group assignment is total over the monitored host set: on a well-formed
/// map, every address that resolves at all resolves to a group inside
/// `[0, NUM_GROUPS)`. Together with `spec_group_of_ip` being a function of
/// the map and the address alone, the assignment is deterministic.
pub proof fn lemma_group_assignment_total(m: &AddressMap, ip: u32)
    requires
        m.wf(),
        spec_resolves(m@, ip),
    ensures
        match spec_group_of_ip(m@, ip) {
            Some(g) => 0 <= g < NUM_GROUPS,
            None => false,
        },
{
    lemma_lookup_index(m@, ip);
    let i = choose|i: int| 0 <= i < m@.len() && m@[i] == spec_lookup(m@, ip)->Some_0;
    assert(spec_host_group(vstd::utf8::encode_utf8(m@[i].host@)) == Some(m@[i].group as int));
}

} // verus!
