//! Aggregation of a merged host-pair matrix into the fixed-size group-pair
//! matrix, and that matrix's text rendering.
//!
//! Every `(src, dst, bytes)` cell of the input adds its bytes to the group
//! cell `(group(src), group(dst))`. The reduction conserves bytes: the
//! group matrix's total equals the input matrix's total.

use vstd::prelude::*;
use crate::groups::NUM_GROUPS;
use crate::matrix::{total, Entry, TrafficMatrix};
use crate::resolver::{
    lemma_group_assignment_total, spec_group_of_ip, spec_resolves, AddressMap,
    AddrEntry,
};

verus! {

/// Sum of one row of group cells.
pub open spec fn spec_row_total(row: Seq<u64>) -> int
    decreases row.len(),
{
    if row.len() == 0 {
        0
    } else {
        spec_row_total(row.drop_last()) + row.last()
    }
}

/// Sum of every cell of the group matrix.
pub open spec fn spec_grid_total(rows: Seq<Vec<u64>>) -> int
    decreases rows.len(),
{
    if rows.len() == 0 {
        0
    } else {
        spec_grid_total(rows.drop_last()) + spec_row_total(rows.last()@)
    }
}

proof fn lemma_row_total_update(row: Seq<u64>, j: int, v: u64)
    requires
        0 <= j < row.len(),
    ensures
        spec_row_total(row.update(j, v)) == spec_row_total(row) + v - row[j],
    decreases row.len(),
{
    if j == row.len() - 1 {
        assert(row.update(j, v).drop_last() =~= row.drop_last());
    } else {
        assert(row.update(j, v).drop_last() =~= row.drop_last().update(j, v));
        lemma_row_total_update(row.drop_last(), j, v);
        assert(row.update(j, v).last() == row.last());
    }
}

proof fn lemma_grid_total_update(rows: Seq<Vec<u64>>, i: int, r: Vec<u64>)
    requires
        0 <= i < rows.len(),
    ensures
        spec_grid_total(rows.update(i, r)) == spec_grid_total(rows) + spec_row_total(r@)
            - spec_row_total(rows[i]@),
    decreases rows.len(),
{
    if i == rows.len() - 1 {
        assert(rows.update(i, r).drop_last() =~= rows.drop_last());
    } else {
        assert(rows.update(i, r).drop_last() =~= rows.drop_last().update(i, r));
        lemma_grid_total_update(rows.drop_last(), i, r);
        assert(rows.update(i, r).last() == rows.last());
    }
}

/// Bytes of the entries whose source host lies in group `gi` and whose
/// destination host lies in group `gj`.
pub open spec fn spec_group_cell(s: Seq<Entry>, addrs: Seq<AddrEntry>, gi: int, gj: int) -> int
    decreases s.len(),
{
    if s.len() == 0 {
        0
    } else {
        spec_group_cell(s.drop_last(), addrs, gi, gj) + match (
            spec_group_of_ip(addrs, s.last().src),
            spec_group_of_ip(addrs, s.last().dst),
        ) {
            (Some(a), Some(b)) => if a == gi && b == gj {
                s.last().bytes as int
            } else {
                0
            },
            _ => 0,
        }
    }
}

/// A prefix of the entries never exceeds the whole in any group cell.
pub proof fn lemma_group_cell_take(
    s: Seq<Entry>,
    k: int,
    addrs: Seq<AddrEntry>,
    gi: int,
    gj: int,
)
    requires
        0 <= k <= s.len(),
    ensures
        spec_group_cell(s.take(k), addrs, gi, gj) <= spec_group_cell(s, addrs, gi, gj),
    decreases s.len() - k,
{
    if k == s.len() {
        assert(s.take(k) =~= s);
    } else {
        assert(s.take(k + 1).drop_last() =~= s.take(k));
        assert(s.take(k + 1).last() == s[k]);
        lemma_group_cell_take(s, k + 1, addrs, gi, gj);
    }
}

/// Fixed-size group-pair matrix of byte counts for one interval.
pub struct GroupMatrix {
    pub rows: Vec<Vec<u64>>,
}

impl GroupMatrix {
    /// The matrix is square with side `NUM_GROUPS`.
    pub open spec fn wf(&self) -> bool {
        &&& self.rows@.len() == NUM_GROUPS
        &&& forall|i: int| 0 <= i < NUM_GROUPS ==> (#[trigger] self.rows@[i])@.len() == NUM_GROUPS
    }

    /// Cell (i, j).
    pub fn get(&self, i: usize, j: usize) -> (v: u64)
        requires
            self.wf(),
            i < NUM_GROUPS,
            j < NUM_GROUPS,
        ensures
            v == self.rows@[i as int]@[j as int],
    {
        self.rows[i][j]
    }
}

/// Aggregate a merged host-pair matrix into the group matrix: each entry's
/// bytes land in the cell of its hosts' groups, so the group matrix's
/// total equals the input's total (no bytes are lost). Fails exactly when
/// some entry's address is not monitored, or some group cell would exceed
/// `u64::MAX`.
pub fn aggregate(m: &TrafficMatrix, map: &AddressMap) -> (r: Option<GroupMatrix>)
    requires
        map.wf(),
    ensures
        match r {
            Some(g) => {
                &&& g.wf()
                &&& forall|gi: int, gj: int|
                    0 <= gi < NUM_GROUPS && 0 <= gj < NUM_GROUPS ==> (
                    #[trigger] g.rows@[gi]@[gj]) == spec_group_cell(m@, map@, gi, gj)
                &&& spec_grid_total(g.rows@) == total(m@)
                &&& forall|k: int|
                    0 <= k < m@.len() ==> spec_resolves(map@, (#[trigger] m@[k]).src)
                        && spec_resolves(map@, m@[k].dst)
            },
            None => (exists|k: int|
                0 <= k < m@.len() && (spec_group_of_ip(map@, (#[trigger] m@[k]).src) is None
                    || spec_group_of_ip(map@, m@[k].dst) is None)) || (exists|gi: int, gj: int|
                0 <= gi < NUM_GROUPS && 0 <= gj < NUM_GROUPS && #[trigger] spec_group_cell(
                    m@,
                    map@,
                    gi,
                    gj,
                ) > u64::MAX),
        },
{
    let mut rows: Vec<Vec<u64>> = Vec::new();
    let mut i: usize = 0;
    while i < NUM_GROUPS
        invariant
            i <= NUM_GROUPS,
            rows@.len() == i,
            forall|a: int|
                0 <= a < i ==> (#[trigger] rows@[a])@.len() == NUM_GROUPS,
            forall|a: int, b: int|
                0 <= a < i && 0 <= b < NUM_GROUPS ==> (#[trigger] rows@[a]@[b]) == 0,
            spec_grid_total(rows@) == 0,
        decreases NUM_GROUPS - i,
    {
        let mut row: Vec<u64> = Vec::new();
        let mut b: usize = 0;
        while b < NUM_GROUPS
            invariant
                b <= NUM_GROUPS,
                row@.len() == b,
                forall|c: int| 0 <= c < b ==> (#[trigger] row@[c]) == 0,
                spec_row_total(row@) == 0,
            decreases NUM_GROUPS - b,
        {
            let ghost before = row@;
            row.push(0);
            proof {
                assert(row@.drop_last() =~= before);
            }
            b = b + 1;
        }
        let ghost brows = rows@;
        rows.push(row);
        proof {
            assert(rows@.drop_last() =~= brows);
        }
        i = i + 1;
    }
    let mut g = GroupMatrix { rows };
    let n = m.entries.len();
    let mut k: usize = 0;
    proof {
        assert(m@.take(0) =~= Seq::<Entry>::empty());
    }
    while k < n
        invariant
            k <= n,
            n == m@.len(),
            map.wf(),
            g.wf(),
            forall|gi: int, gj: int|
                0 <= gi < NUM_GROUPS && 0 <= gj < NUM_GROUPS ==> (#[trigger] g.rows@[gi]@[gj])
                    == spec_group_cell(m@.take(k as int), map@, gi, gj),
            spec_grid_total(g.rows@) == total(m@.take(k as int)),
            forall|kk: int|
                0 <= kk < k ==> spec_resolves(map@, (#[trigger] m@[kk]).src) && spec_resolves(
                    map@,
                    m@[kk].dst,
                ),
        decreases n - k,
    {
        let e = m.entries[k];
        proof {
            assert(m@.take(k + 1).drop_last() =~= m@.take(k as int));
            assert(m@.take(k + 1).last() == m@[k as int]);
        }
        let gs = match map.group_of_ip(e.src) {
            Some(gs) => gs,
            None => {
                return None;
            },
        };
        let gd = match map.group_of_ip(e.dst) {
            Some(gd) => gd,
            None => {
                return None;
            },
        };
        proof {
            lemma_group_assignment_total(map, e.src);
            lemma_group_assignment_total(map, e.dst);
        }
        let cur = g.rows[gs][gd];
        if e.bytes > u64::MAX - cur {
            proof {
                lemma_group_cell_take(m@, k + 1, map@, gs as int, gd as int);
                assert(spec_group_cell(m@, map@, gs as int, gd as int) > u64::MAX);
            }
            return None;
        }
        let ghost old_rows = g.rows@;
        let nv = cur + e.bytes;
        g.rows[gs][gd] = nv;
        proof {
            let gsi = gs as int;
            let gdi = gd as int;
            assert(g.rows@ == old_rows.update(gsi, g.rows@[gsi]));
            assert(g.rows@[gsi]@ == old_rows[gsi]@.update(gdi, nv));
            lemma_row_total_update(old_rows[gsi]@, gdi, nv);
            lemma_grid_total_update(old_rows, gsi, g.rows@[gsi]);
            assert forall|gi: int, gj: int|
                0 <= gi < NUM_GROUPS && 0 <= gj < NUM_GROUPS implies (
            #[trigger] g.rows@[gi]@[gj]) == spec_group_cell(m@.take(k + 1), map@, gi, gj) by {
                if gi != gsi {
                    assert(g.rows@[gi] == old_rows[gi]);
                }
            }
        }
        k = k + 1;
    }
    proof {
        assert(m@.take(n as int) =~= m@);
    }
    Some(g)
}

} // verus!
