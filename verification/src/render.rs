//! Text rendering of a group matrix: one line per row, the row's counts in
//! decimal separated by single spaces, each line closed by a newline.

use vstd::prelude::*;
use crate::aggregate::GroupMatrix;
use crate::groups::NUM_GROUPS;

verus! {

/// Decimal digits of `n`, most significant first.
pub open spec fn spec_dec(n: int) -> Seq<u8>
    decreases n,
        when n >= 0
{
    if n < 10 {
        seq![(48 + n) as u8]
    } else {
        spec_dec(n / 10).push((48 + n % 10) as u8)
    }
}

/// The first `j` cells of a row, rendered with separating spaces.
pub open spec fn spec_render_row_prefix(row: Seq<u64>, j: int) -> Seq<u8>
    decreases j,
        when j >= 0
{
    if j <= 0 {
        Seq::empty()
    } else if j == 1 {
        spec_dec(row[0] as int)
    } else {
        spec_render_row_prefix(row, j - 1) + seq![32u8] + spec_dec(row[j - 1] as int)
    }
}

/// One row rendered, closed by a newline.
pub open spec fn spec_render_row(row: Seq<u64>) -> Seq<u8> {
    spec_render_row_prefix(row, row.len() as int) + seq![10u8]
}

/// The first `i` rows rendered.
pub open spec fn spec_render_prefix(rows: Seq<Vec<u64>>, i: int) -> Seq<u8>
    decreases i,
        when i >= 0
{
    if i <= 0 {
        Seq::empty()
    } else {
        spec_render_prefix(rows, i - 1) + spec_render_row(rows[i - 1]@)
    }
}

/// The whole matrix rendered.
pub open spec fn spec_render(rows: Seq<Vec<u64>>) -> Seq<u8> {
    spec_render_prefix(rows, rows.len() as int)
}

/// Append the decimal digits of `x`.
fn push_dec(out: &mut Vec<u8>, x: u64)
    ensures
        final(out)@ == old(out)@ + spec_dec(x as int),
{
    let ghost base = out@;
    let mut tmp: Vec<u8> = Vec::new();
    let mut m = x;
    proof {
        assert(spec_dec(x as int) =~= spec_dec(m as int) + tmp@.reverse());
    }
    loop
        invariant_except_break
            spec_dec(x as int) == spec_dec(m as int) + tmp@.reverse(),
        ensures
            spec_dec(x as int) == tmp@.reverse(),
            tmp@.len() > 0,
        decreases m,
    {
        let d: u8 = 48 + (m % 10) as u8;
        let ghost before = tmp@;
        tmp.push(d);
        proof {
            assert(tmp@.reverse() =~= seq![d] + before.reverse());
        }
        if m < 10 {
            proof {
                assert(spec_dec(m as int) =~= seq![d]);
                assert(spec_dec(m as int) + before.reverse() =~= tmp@.reverse());
            }
            break;
        }
        proof {
            assert(spec_dec(m as int) == spec_dec(m as int / 10).push(
                (48 + m as int % 10) as u8,
            ));
            assert(spec_dec(m as int / 10).push(d) =~= spec_dec(m as int / 10) + seq![d]);
            assert(spec_dec(m as int / 10) + seq![d] + before.reverse() =~= spec_dec(
                m as int / 10,
            ) + (seq![d] + before.reverse()));
        }
        m = m / 10;
    }
    let ghost rev = tmp@.reverse();
    let mut i = tmp.len();
    proof {
        assert(out@ =~= base + rev.take(tmp@.len() - i));
    }
    while i > 0
        invariant
            i <= tmp@.len(),
            rev == tmp@.reverse(),
            rev.len() == tmp@.len(),
            out@ == base + rev.take(tmp@.len() - i),
        decreases i,
    {
        i = i - 1;
        let ghost bout = out@;
        out.push(tmp[i]);
        proof {
            assert(tmp@[i as int] == rev[tmp@.len() - 1 - i]);
            assert(out@ =~= base + rev.take(tmp@.len() - i));
        }
    }
    proof {
        assert(rev.take(tmp@.len() as int) =~= rev);
    }
}

/// Render the group matrix as `NUM_GROUPS` lines of `NUM_GROUPS`
/// space-separated decimal counts.
pub fn render_matrix(g: &GroupMatrix) -> (out: Vec<u8>)
    requires
        g.wf(),
    ensures
        out@ == spec_render(g.rows@),
{
    let mut out: Vec<u8> = Vec::new();
    let mut i: usize = 0;
    proof {
        assert(out@ =~= spec_render_prefix(g.rows@, 0));
    }
    while i < NUM_GROUPS
        invariant
            i <= NUM_GROUPS,
            g.wf(),
            out@ == spec_render_prefix(g.rows@, i as int),
        decreases NUM_GROUPS - i,
    {
        let ghost row = g.rows@[i as int]@;
        let ghost rbase = out@;
        let mut j: usize = 0;
        while j < NUM_GROUPS
            invariant
                j <= NUM_GROUPS,
                i < NUM_GROUPS,
                g.wf(),
                row == g.rows@[i as int]@,
                rbase == spec_render_prefix(g.rows@, i as int),
                out@ == rbase + spec_render_row_prefix(row, j as int),
            decreases NUM_GROUPS - j,
        {
            let ghost bout = out@;
            if j > 0 {
                out.push(32);
                push_dec(&mut out, g.rows[i][j]);
                proof {
                    assert(out@ =~= bout + seq![32u8] + spec_dec(row[j as int] as int));
                    assert(spec_render_row_prefix(row, j + 1) == spec_render_row_prefix(
                        row,
                        j as int,
                    ) + seq![32u8] + spec_dec(row[j as int] as int));
                    assert(out@ =~= rbase + spec_render_row_prefix(row, j + 1));
                }
            } else {
                push_dec(&mut out, g.rows[i][j]);
                proof {
                    assert(spec_render_row_prefix(row, 0) =~= Seq::<u8>::empty());
                    assert(rbase + spec_render_row_prefix(row, 0) =~= rbase);
                    assert(spec_render_row_prefix(row, 1) == spec_dec(row[0] as int));
                    assert(out@ =~= rbase + spec_render_row_prefix(row, 1));
                }
            }
            j = j + 1;
        }
        out.push(10);
        proof {
            assert(out@ =~= rbase + spec_render_row(row));
            assert(spec_render_prefix(g.rows@, i + 1) == spec_render_prefix(g.rows@, i as int)
                + spec_render_row(g.rows@[i as int]@));
        }
        i = i + 1;
    }
    proof {
        assert(spec_render_prefix(g.rows@, NUM_GROUPS as int) == spec_render(g.rows@));
    }
    out
}

} // verus!
