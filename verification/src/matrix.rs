//! Sparse host-pair traffic matrices.
//!
//! A `TrafficMatrix` records, for one time interval, how many bytes each
//! observed source address sent to each destination address. Only observed
//! pairs are stored; every absent pair counts as zero.

use vstd::prelude::*;

verus! {

/// One sparse cell: `bytes` sent from address `src` to address `dst` within
/// one interval.
#[derive(Clone, Copy, PartialEq, Eq, Structural, Debug)]
pub struct Entry {
    pub src: u32,
    pub dst: u32,
    pub bytes: u64,
}

/// Bytes recorded for the pair `(src, dst)`: the sum of every entry so keyed.
pub open spec fn cell(s: Seq<Entry>, src: u32, dst: u32) -> int
    decreases s.len(),
{
    if s.len() == 0 {
        0
    } else {
        cell(s.drop_last(), src, dst) + if s.last().src == src && s.last().dst == dst {
            s.last().bytes as int
        } else {
            0
        }
    }
}

/// Total bytes recorded over all pairs.
pub open spec fn total(s: Seq<Entry>) -> int
    decreases s.len(),
{
    if s.len() == 0 {
        0
    } else {
        total(s.drop_last()) + s.last().bytes
    }
}

/// No two entries carry the same (src, dst) pair.
pub open spec fn unique_keys(s: Seq<Entry>) -> bool {
    forall|i: int, j: int|
        0 <= i < j < s.len() ==> !((#[trigger] s[i]).src == (#[trigger] s[j]).src && s[i].dst
            == s[j].dst)
}

/// Every cell is non-negative and bounded by the matrix total.
pub proof fn lemma_cell_bounds(s: Seq<Entry>, src: u32, dst: u32)
    ensures
        0 <= cell(s, src, dst) <= total(s),
    decreases s.len(),
{
    if s.len() > 0 {
        lemma_cell_bounds(s.drop_last(), src, dst);
    }
}

/// Appending an entry raises exactly its own cell, and the total, by its
/// byte count.
pub proof fn lemma_cell_push(s: Seq<Entry>, e: Entry)
    ensures
        forall|src: u32, dst: u32| #[trigger]
            cell(s.push(e), src, dst) == cell(s, src, dst) + if e.src == src && e.dst == dst {
                e.bytes as int
            } else {
                0
            },
        total(s.push(e)) == total(s) + e.bytes,
{
    assert(s.push(e).drop_last() =~= s);
}

/// Replacing the entry at `i` by one with the same key shifts that key's
/// cell, and the total, by the difference in bytes.
pub proof fn lemma_cell_update(s: Seq<Entry>, i: int, e: Entry)
    requires
        0 <= i < s.len(),
        e.src == s[i].src,
        e.dst == s[i].dst,
    ensures
        forall|src: u32, dst: u32| #[trigger]
            cell(s.update(i, e), src, dst) == cell(s, src, dst) + if e.src == src && e.dst
                == dst {
                e.bytes - s[i].bytes
            } else {
                0
            },
        total(s.update(i, e)) == total(s) + e.bytes - s[i].bytes,
    decreases s.len(),
{
    if i == s.len() - 1 {
        assert(s.update(i, e).drop_last() =~= s.drop_last());
        assert(s.update(i, e).last() == e);
    } else {
        assert(s.update(i, e).drop_last() =~= s.drop_last().update(i, e));
        lemma_cell_update(s.drop_last(), i, e);
        assert(s.update(i, e).last() == s.last());
        assert forall|src: u32, dst: u32| #[trigger]
            cell(s.update(i, e), src, dst) == cell(s, src, dst) + (if e.src == src && e.dst
                == dst {
                e.bytes - s[i].bytes
            } else {
                0
            }) by {
            assert(cell(s.drop_last().update(i, e), src, dst) == cell(s.drop_last(), src, dst)
                + (if e.src == src && e.dst == dst {
                e.bytes - s[i].bytes
            } else {
                0
            }));
            assert(cell(s.update(i, e), src, dst) == cell(s.drop_last().update(i, e), src, dst)
                + (if s.last().src == src && s.last().dst == dst {
                s.last().bytes as int
            } else {
                0
            }));
        }
    }
}

/// A key matched by no entry has a zero cell.
pub proof fn lemma_cell_absent(s: Seq<Entry>, src: u32, dst: u32)
    requires
        forall|k: int| 0 <= k < s.len() ==> !((#[trigger] s[k]).src == src && s[k].dst == dst),
    ensures
        cell(s, src, dst) == 0,
    decreases s.len(),
{
    if s.len() > 0 {
        lemma_cell_absent(s.drop_last(), src, dst);
    }
}

/// With pairwise-distinct keys, the entry at `i` stores its key's whole cell.
pub proof fn lemma_cell_at(s: Seq<Entry>, i: int)
    requires
        unique_keys(s),
        0 <= i < s.len(),
    ensures
        cell(s, s[i].src, s[i].dst) == s[i].bytes,
    decreases s.len(),
{
    if i == s.len() - 1 {
        lemma_cell_absent(s.drop_last(), s[i].src, s[i].dst);
    } else {
        lemma_cell_at(s.drop_last(), i);
        assert(!(s.last().src == s[i].src && s.last().dst == s[i].dst));
    }
}

/// A prefix of the entries never exceeds the whole in any cell.
pub proof fn lemma_cell_take(s: Seq<Entry>, k: int, src: u32, dst: u32)
    requires
        0 <= k <= s.len(),
    ensures
        cell(s.take(k), src, dst) <= cell(s, src, dst),
    decreases s.len() - k,
{
    if k == s.len() {
        assert(s.take(k) =~= s);
    } else {
        assert(s.take(k + 1).drop_last() =~= s.take(k));
        assert(s.take(k + 1).last() == s[k]);
        lemma_cell_take(s, k + 1, src, dst);
    }
}

/// Sparse traffic matrix for one interval.
#[derive(Debug)]
pub struct TrafficMatrix {
    pub entries: Vec<Entry>,
}

impl View for TrafficMatrix {
    type V = Seq<Entry>;

    open spec fn view(&self) -> Seq<Entry> {
        self.entries@
    }
}

impl TrafficMatrix {
    /// Entry keys are pairwise distinct.
    pub open spec fn wf(&self) -> bool {
        unique_keys(self@)
    }

    /// An empty matrix: every cell is zero.
    pub fn new() -> (m: TrafficMatrix)
        ensures
            m@.len() == 0,
            m.wf(),
    {
        TrafficMatrix { entries: Vec::new() }
    }

    /// Index of the entry keyed (src, dst), if one exists.
    fn find(&self, src: u32, dst: u32) -> (r: Option<usize>)
        ensures
            match r {
                Some(i) => i < self@.len() && self@[i as int].src == src && self@[i as int].dst
                    == dst,
                None => forall|k: int|
                    0 <= k < self@.len() ==> !((#[trigger] self@[k]).src == src && self@[k].dst
                        == dst),
            },
    {
        let mut i: usize = 0;
        while i < self.entries.len()
            invariant
                i <= self@.len(),
                forall|k: int|
                    0 <= k < i ==> !((#[trigger] self@[k]).src == src && self@[k].dst == dst),
            decreases self@.len() - i,
        {
            if self.entries[i].src == src && self.entries[i].dst == dst {
                return Some(i);
            }
            i = i + 1;
        }
        None
    }

    /// Bytes recorded for (src, dst); zero when the pair is absent.
    pub fn get_bytes(&self, src: u32, dst: u32) -> (r: u64)
        requires
            self.wf(),
        ensures
            r == cell(self@, src, dst),
    {
        match self.find(src, dst) {
            Some(i) => {
                proof {
                    lemma_cell_at(self@, i as int);
                }
                self.entries[i].bytes
            },
            None => {
                proof {
                    lemma_cell_absent(self@, src, dst);
                }
                0
            },
        }
    }

    /// Number of stored (src, dst) pairs.
    pub fn pair_count(&self) -> (n: usize)
        ensures
            n == self@.len(),
    {
        self.entries.len()
    }

    /// Add `v` bytes to the cell (src, dst), creating it from zero when
    /// absent. Returns false, leaving the matrix unchanged, exactly when the
    /// cell would exceed `u64::MAX`.
    pub fn add_bytes(&mut self, src: u32, dst: u32, v: u64) -> (ok: bool)
        requires
            old(self).wf(),
        ensures
            final(self).wf(),
            ok == (cell(old(self)@, src, dst) + v <= u64::MAX),
            ok ==> forall|s: u32, d: u32| #[trigger]
                cell(final(self)@, s, d) == cell(old(self)@, s, d) + if s == src && d == dst {
                    v as int
                } else {
                    0
                },
            ok ==> total(final(self)@) == total(old(self)@) + v,
            !ok ==> final(self)@ == old(self)@,
    {
        match self.find(src, dst) {
            Some(i) => {
                let b = self.entries[i].bytes;
                proof {
                    lemma_cell_at(self@, i as int);
                }
                if v <= u64::MAX - b {
                    let e = Entry { src, dst, bytes: b + v };
                    self.entries[i] = e;
                    proof {
                        lemma_cell_update(old(self)@, i as int, e);
                        assert forall|a: int, c: int| 0 <= a < c < self@.len() implies !((
                        #[trigger] self@[a]).src == (#[trigger] self@[c]).src && self@[a].dst
                            == self@[c].dst) by {
                            assert(self@ =~= old(self)@.update(i as int, e));
                        }
                    }
                    true
                } else {
                    false
                }
            },
            None => {
                proof {
                    lemma_cell_absent(self@, src, dst);
                }
                let e = Entry { src, dst, bytes: v };
                self.entries.push(e);
                proof {
                    lemma_cell_push(old(self)@, e);
                    assert forall|a: int, c: int| 0 <= a < c < self@.len() implies !((
                    #[trigger] self@[a]).src == (#[trigger] self@[c]).src && self@[a].dst
                        == self@[c].dst) by {
                        assert(self@ =~= old(self)@.push(e));
                        if c < self@.len() - 1 {
                            assert(!(old(self)@[a].src == old(self)@[c].src && old(self)@[a].dst
                                == old(self)@[c].dst));
                        }
                    }
                }
                true
            },
        }
    }
}

} // verus!
