//! Length normalization and interval-wise merging of per-file timelines.
//!
//! After every capture is scanned, shorter timelines are padded with empty
//! matrices to the longest length; the matrix for global interval `i` is
//! then the cell-wise sum of every file's matrix at `i`. Merging reads the
//! timelines only, so different intervals can be merged independently.

use vstd::prelude::*;
use crate::matrix::{cell, lemma_cell_bounds, lemma_cell_take, total, TrafficMatrix};

verus! {

/// Sum over every timeline of cell (src, dst) of its matrix at `i`.
pub open spec fn spec_cell_sum(
    tls: Seq<Vec<TrafficMatrix>>,
    i: int,
    src: u32,
    dst: u32,
) -> int
    decreases tls.len(),
{
    if tls.len() == 0 {
        0
    } else {
        spec_cell_sum(tls.drop_last(), i, src, dst) + cell(tls.last()@[i]@, src, dst)
    }
}

/// Sum over every timeline of the total of its matrix at `i`.
pub open spec fn spec_total_sum(tls: Seq<Vec<TrafficMatrix>>, i: int) -> int
    decreases tls.len(),
{
    if tls.len() == 0 {
        0
    } else {
        spec_total_sum(tls.drop_last(), i) + total(tls.last()@[i]@)
    }
}

/// Longest timeline length.
pub open spec fn spec_max_len(tls: Seq<Vec<TrafficMatrix>>) -> int
    decreases tls.len(),
{
    if tls.len() == 0 {
        0
    } else {
        let rest = spec_max_len(tls.drop_last());
        if tls.last()@.len() > rest {
            tls.last()@.len() as int
        } else {
            rest
        }
    }
}

/// No timeline is longer than the longest.
pub proof fn lemma_max_len_ge(tls: Seq<Vec<TrafficMatrix>>, j: int)
    requires
        0 <= j < tls.len(),
    ensures
        tls[j]@.len() <= spec_max_len(tls),
        spec_max_len(tls) >= 0,
    decreases tls.len(),
{
    if j < tls.len() - 1 {
        lemma_max_len_ge(tls.drop_last(), j);
    } else if tls.len() > 1 {
        lemma_max_len_ge(tls.drop_last(), 0);
    }
}

/// Some timeline attains the longest length.
pub proof fn lemma_max_len_attained(tls: Seq<Vec<TrafficMatrix>>)
    requires
        tls.len() > 0,
    ensures
        exists|j: int| 0 <= j < tls.len() && (#[trigger] tls[j])@.len() == spec_max_len(tls),
    decreases tls.len(),
{
    if tls.len() == 1 {
        assert(tls.drop_last() =~= Seq::<Vec<TrafficMatrix>>::empty());
        assert(spec_max_len(Seq::<Vec<TrafficMatrix>>::empty()) == 0);
        assert(tls[0]@.len() == spec_max_len(tls));
    } else {
        lemma_max_len_attained(tls.drop_last());
        if tls.last()@.len() > spec_max_len(tls.drop_last()) {
            assert(tls[tls.len() - 1]@.len() == spec_max_len(tls));
        } else {
            let j = choose|j: int|
                0 <= j < tls.drop_last().len() && (#[trigger] tls.drop_last()[j])@.len()
                    == spec_max_len(tls.drop_last());
            assert(tls[j]@.len() == spec_max_len(tls));
        }
    }
}

/// A prefix of the timelines never exceeds the whole in any cell sum.
pub proof fn lemma_cell_sum_take(
    tls: Seq<Vec<TrafficMatrix>>,
    k: int,
    i: int,
    src: u32,
    dst: u32,
)
    requires
        0 <= k <= tls.len(),
    ensures
        spec_cell_sum(tls.take(k), i, src, dst) <= spec_cell_sum(tls, i, src, dst),
    decreases tls.len() - k,
{
    if k == tls.len() {
        assert(tls.take(k) =~= tls);
    } else {
        assert(tls.take(k + 1).drop_last() =~= tls.take(k));
        assert(tls.take(k + 1).last() == tls[k]);
        lemma_cell_bounds(tls[k]@[i]@, src, dst);
        lemma_cell_sum_take(tls, k + 1, i, src, dst);
    }
}

/// Dropping the timeline at `j` removes exactly its contribution from the
/// cell and total sums.
pub proof fn lemma_sum_remove(tls: Seq<Vec<TrafficMatrix>>, j: int, i: int, src: u32, dst: u32)
    requires
        0 <= j < tls.len(),
    ensures
        spec_cell_sum(tls.remove(j), i, src, dst) == spec_cell_sum(tls, i, src, dst) - cell(
            tls[j]@[i]@,
            src,
            dst,
        ),
        spec_total_sum(tls.remove(j), i) == spec_total_sum(tls, i) - total(tls[j]@[i]@),
    decreases tls.len(),
{
    if j == tls.len() - 1 {
        assert(tls.remove(j) =~= tls.drop_last());
    } else {
        assert(tls.remove(j).drop_last() =~= tls.drop_last().remove(j));
        lemma_sum_remove(tls.drop_last(), j, i, src, dst);
        assert(tls.remove(j).last() == tls.last());
    }
}

/// Merging does not depend on the order the per-file timelines arrived in:
/// two collections holding the same timelines, however shuffled, give the
/// same cell sums and the same total at every interval. This is the
/// commutativity and associativity of the interval-wise merge.
pub proof fn lemma_merge_order_irrelevant(
    t1: Seq<Vec<TrafficMatrix>>,
    t2: Seq<Vec<TrafficMatrix>>,
    i: int,
    src: u32,
    dst: u32,
)
    requires
        t1.to_multiset() == t2.to_multiset(),
    ensures
        spec_cell_sum(t1, i, src, dst) == spec_cell_sum(t2, i, src, dst),
        spec_total_sum(t1, i) == spec_total_sum(t2, i),
    decreases t1.len(),
{
    broadcast use vstd::seq_lib::group_to_multiset_ensures;

    if t1.len() == 0 {
        if t2.len() > 0 {
            assert(t2.to_multiset().len() > 0);
            assert(false);
        }
        assert(t2 =~= Seq::<Vec<TrafficMatrix>>::empty());
    } else {
        let x = t1.last();
        assert(t1.contains(x));
        assert(t1.to_multiset().count(x) > 0);
        assert(t2.to_multiset().count(x) > 0);
        assert(t2.contains(x));
        let j = choose|j: int| 0 <= j < t2.len() && t2[j] == x;
        assert(t1.drop_last() =~= t1.remove(t1.len() - 1));
        assert(t1.remove(t1.len() - 1).to_multiset() == t1.to_multiset().remove(x));
        assert(t2.remove(j).to_multiset() == t2.to_multiset().remove(x));
        lemma_sum_remove(t2, j, i, src, dst);
        lemma_merge_order_irrelevant(t1.drop_last(), t2.remove(j), i, src, dst);
    }
}

/// Pad every timeline with empty matrices up to the longest length. Each
/// timeline keeps its own matrices as a prefix; a timeline already of the
/// longest length, and in particular every timeline when all lengths agree,
/// is left exactly as it was.
pub fn pad_timelines(timelines: &mut Vec<Vec<TrafficMatrix>>)
    ensures
        final(timelines)@.len() == old(timelines)@.len(),
        forall|j: int|
            0 <= j < old(timelines)@.len() ==> (#[trigger] final(timelines)@[j])@.len()
                == spec_max_len(old(timelines)@),
        forall|j: int|
            0 <= j < old(timelines)@.len() ==> (#[trigger] final(timelines)@[j])@.take(
                old(timelines)@[j]@.len() as int,
            ) == old(timelines)@[j]@,
        forall|j: int, w: int|
            0 <= j < old(timelines)@.len() && old(timelines)@[j]@.len() <= w < spec_max_len(
                old(timelines)@,
            ) ==> (#[trigger] final(timelines)@[j]@[w])@.len() == 0
                && final(timelines)@[j]@[w].wf(),
        forall|j: int|
            0 <= j < old(timelines)@.len() && old(timelines)@[j]@.len() == spec_max_len(
                old(timelines)@,
            ) ==> (#[trigger] final(timelines)@[j])@ == old(timelines)@[j]@,
        (forall|a: int, b: int|
            0 <= a < old(timelines)@.len() && 0 <= b < old(timelines)@.len() ==> (
            #[trigger] old(timelines)@[a])@.len() == (#[trigger] old(timelines)@[b])@.len())
            ==> forall|j: int|
            0 <= j < old(timelines)@.len() ==> (#[trigger] final(timelines)@[j])@
                == old(timelines)@[j]@,
{
    let maxl = max_timeline_len(timelines);
    let n = timelines.len();
    let mut j: usize = 0;
    while j < n
        invariant
            j <= n,
            n == timelines@.len(),
            n == old(timelines)@.len(),
            maxl == spec_max_len(old(timelines)@),
            forall|jj: int| j <= jj < n ==> timelines@[jj] == old(timelines)@[jj],
            forall|jj: int|
                0 <= jj < j ==> (#[trigger] timelines@[jj])@.len() == maxl,
            forall|jj: int|
                0 <= jj < j ==> (#[trigger] timelines@[jj])@.take(
                    old(timelines)@[jj]@.len() as int,
                ) == old(timelines)@[jj]@,
            forall|jj: int, w: int|
                0 <= jj < j && old(timelines)@[jj]@.len() <= w < maxl ==> (
                #[trigger] timelines@[jj]@[w])@.len() == 0 && timelines@[jj]@[w].wf(),
        decreases n - j,
    {
        proof {
            lemma_max_len_ge(old(timelines)@, j as int);
        }
        let base = timelines[j].len();
        let mut l = base;
        proof {
            assert(timelines@[j as int]@.take(base as int) =~= timelines@[j as int]@);
        }
        while l < maxl
            invariant
                j < n,
                n == timelines@.len(),
                n == old(timelines)@.len(),
                maxl == spec_max_len(old(timelines)@),
                base <= l <= maxl,
                base == old(timelines)@[j as int]@.len(),
                l == timelines@[j as int]@.len(),
                forall|jj: int| j < jj < n ==> timelines@[jj] == old(timelines)@[jj],
                forall|jj: int|
                    0 <= jj < j ==> (#[trigger] timelines@[jj])@.len() == maxl,
                forall|jj: int|
                    0 <= jj < j ==> (#[trigger] timelines@[jj])@.take(
                        old(timelines)@[jj]@.len() as int,
                    ) == old(timelines)@[jj]@,
                forall|jj: int, w: int|
                    0 <= jj < j && old(timelines)@[jj]@.len() <= w < maxl ==> (
                    #[trigger] timelines@[jj]@[w])@.len() == 0 && timelines@[jj]@[w].wf(),
                timelines@[j as int]@.take(base as int) == old(timelines)@[j as int]@,
                forall|w: int|
                    base <= w < l ==> (#[trigger] timelines@[j as int]@[w])@.len() == 0
                        && timelines@[j as int]@[w].wf(),
            decreases maxl - l,
        {
            let ghost before = timelines@[j as int]@;
            timelines[j].push(TrafficMatrix::new());
            proof {
                assert(timelines@[j as int]@.take(base as int) =~= before.take(base as int));
            }
            l = l + 1;
        }
        j = j + 1;
    }
    proof {
        assert forall|j2: int|
            0 <= j2 < old(timelines)@.len() && old(timelines)@[j2]@.len() == spec_max_len(
                old(timelines)@,
            ) implies (#[trigger] timelines@[j2])@ == old(timelines)@[j2]@ by {
            assert(timelines@[j2]@.take(old(timelines)@[j2]@.len() as int) =~= timelines@[j2]@);
        }
        // Timelines already of one common length are left untouched: that
        // length is the longest, so no padding happens anywhere.
        if forall|a: int, b: int|
            0 <= a < old(timelines)@.len() && 0 <= b < old(timelines)@.len() ==> (
            #[trigger] old(timelines)@[a])@.len() == (#[trigger] old(timelines)@[b])@.len() {
            if old(timelines)@.len() > 0 {
                lemma_max_len_attained(old(timelines)@);
                let j0 = choose|j0: int|
                    0 <= j0 < old(timelines)@.len() && (#[trigger] old(timelines)@[j0])@.len()
                        == spec_max_len(old(timelines)@);
                assert forall|j2: int|
                    0 <= j2 < old(timelines)@.len() implies (#[trigger] timelines@[j2])@
                    == old(timelines)@[j2]@ by {
                    assert(old(timelines)@[j2]@.len() == old(timelines)@[j0]@.len());
                }
            }
        }
    }
}

/// Longest timeline length, 0 when there are no timelines.
pub fn max_timeline_len(timelines: &Vec<Vec<TrafficMatrix>>) -> (m: usize)
    ensures
        m == spec_max_len(timelines@),
{
    let n = timelines.len();
    let mut m: usize = 0;
    let mut j: usize = 0;
    proof {
        assert(timelines@.take(0) =~= Seq::<Vec<TrafficMatrix>>::empty());
    }
    while j < n
        invariant
            j <= n,
            n == timelines@.len(),
            m == spec_max_len(timelines@.take(j as int)),
        decreases n - j,
    {
        proof {
            assert(timelines@.take(j + 1).drop_last() =~= timelines@.take(j as int));
            assert(timelines@.take(j + 1).last() == timelines@[j as int]);
        }
        let lj = timelines[j].len();
        if lj > m {
            m = lj;
        }
        j = j + 1;
    }
    proof {
        assert(timelines@.take(n as int) =~= timelines@);
    }
    m
}

/// Merge every file's matrix at interval `i` into one matrix: each cell of
/// the result is the sum of that cell across the files, and the result's
/// total is the sum of their totals, so merging conserves bytes. Returns
/// `None` exactly when some summed cell would exceed `u64::MAX`.
pub fn merge_interval(timelines: &Vec<Vec<TrafficMatrix>>, i: usize) -> (r: Option<
    TrafficMatrix,
>)
    requires
        forall|j: int| 0 <= j < timelines@.len() ==> i < (#[trigger] timelines@[j])@.len(),
    ensures
        match r {
            Some(m) => {
                &&& m.wf()
                &&& forall|s: u32, d: u32| #[trigger]
                    cell(m@, s, d) == spec_cell_sum(timelines@, i as int, s, d)
                &&& total(m@) == spec_total_sum(timelines@, i as int)
            },
            None => exists|s: u32, d: u32|
                #[trigger] spec_cell_sum(timelines@, i as int, s, d) > u64::MAX,
        },
{
    let n = timelines.len();
    let mut acc = TrafficMatrix::new();
    let mut j: usize = 0;
    proof {
        assert(timelines@.take(0) =~= Seq::<Vec<TrafficMatrix>>::empty());
        assert forall|s: u32, d: u32| #[trigger]
            cell(acc@, s, d) == spec_cell_sum(timelines@.take(0), i as int, s, d) by {}
    }
    while j < n
        invariant
            j <= n,
            n == timelines@.len(),
            forall|jj: int| 0 <= jj < n ==> i < (#[trigger] timelines@[jj])@.len(),
            acc.wf(),
            forall|s: u32, d: u32| #[trigger]
                cell(acc@, s, d) == spec_cell_sum(timelines@.take(j as int), i as int, s, d),
            total(acc@) == spec_total_sum(timelines@.take(j as int), i as int),
        decreases n - j,
    {
        let ghost tls = timelines@;
        proof {
            assert(tls.take(j + 1).drop_last() =~= tls.take(j as int));
            assert(tls.take(j + 1).last() == tls[j as int]);
        }
        let cnt = timelines[j][i].pair_count();
        let mut k: usize = 0;
        let ghost cur = timelines@[j as int]@[i as int]@;
        while k < cnt
            invariant
                k <= cnt,
                j < n,
                i < timelines@[j as int]@.len(),
                n == timelines@.len(),
                cnt == cur.len(),
                cur == timelines@[j as int]@[i as int]@,
                acc.wf(),
                forall|s: u32, d: u32| #[trigger]
                    cell(acc@, s, d) == spec_cell_sum(timelines@.take(j as int), i as int, s, d)
                        + cell(cur.take(k as int), s, d),
                total(acc@) == spec_total_sum(timelines@.take(j as int), i as int) + total(
                    cur.take(k as int),
                ),
            decreases cnt - k,
        {
            let e = timelines[j][i].entries[k];
            proof {
                assert(cur.take(k + 1).drop_last() =~= cur.take(k as int));
                assert(cur.take(k + 1).last() == cur[k as int]);
            }
            let ok = acc.add_bytes(e.src, e.dst, e.bytes);
            if !ok {
                proof {
                    lemma_cell_take(cur, k + 1, e.src, e.dst);
                    assert(timelines@.take(j + 1).drop_last() =~= timelines@.take(j as int));
                    assert(timelines@.take(j + 1).last() == timelines@[j as int]);
                    lemma_cell_sum_take(timelines@, j + 1, i as int, e.src, e.dst);
                    assert(spec_cell_sum(timelines@.take(j + 1), i as int, e.src, e.dst)
                        == spec_cell_sum(timelines@.take(j as int), i as int, e.src, e.dst)
                        + cell(cur, e.src, e.dst));
                    assert(spec_cell_sum(timelines@, i as int, e.src, e.dst) > u64::MAX);
                }
                return None;
            }
            k = k + 1;
        }
        proof {
            assert(cur.take(cnt as int) =~= cur);
        }
        j = j + 1;
    }
    proof {
        assert(timelines@.take(n as int) =~= timelines@);
    }
    Some(acc)
}

} // verus!
