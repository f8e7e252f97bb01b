//! Scanning one capture into a per-file timeline of traffic matrices.
//!
//! Records are walked in capture order. A record more than `interval` ticks
//! past the current window's start closes that window and opens a new one
//! at the record's own timestamp; the first record opens the first window.
//! Each IPv4 frame whose source and destination both resolve adds its IPv4
//! payload length to the current window's matrix. The final window is
//! always emitted, so even an empty capture yields one (empty) matrix.

use vstd::prelude::*;
use crate::matrix::{cell, total, TrafficMatrix, lemma_cell_bounds};
use crate::pcap::{
    spec_frame, spec_le_magic, spec_records, spec_valid_header, parse_frame, read_u32_at,
    SpecRec,
};
use crate::resolver::{spec_resolves, AddrEntry, AddressMap};

verus! {

/// A capture whose global header cannot be read at all; the file's scan
/// task fails without touching its siblings.
#[derive(Clone, Copy, PartialEq, Eq, Structural, Debug)]
pub enum ScanError {
    InvalidHeader,
}

impl ScanError {
    /// Short operator-facing description.
    pub fn message(&self) -> &'static str {
        match self {
            ScanError::InvalidHeader => "capture does not open with a legacy header",
        }
    }
}

/// Window assignment, walking records in order from index `i` with the
/// current window `cur` open since `start` and the closed windows in
/// `done`.
pub open spec fn spec_split(
    recs: Seq<SpecRec>,
    interval: u64,
    i: int,
    start: int,
    cur: Seq<SpecRec>,
    done: Seq<Seq<SpecRec>>,
) -> Seq<Seq<SpecRec>>
    decreases recs.len() - i,
        when 0 <= i <= recs.len()
{
    if i >= recs.len() {
        done.push(cur)
    } else {
        let r = recs[i];
        if r.t - start > interval {
            spec_split(recs, interval, i + 1, r.t, seq![r], done.push(cur))
        } else {
            spec_split(recs, interval, i + 1, start, cur.push(r), done)
        }
    }
}

/// The per-interval partition of a capture's records; an empty capture has
/// one empty window.
pub open spec fn spec_windows(recs: Seq<SpecRec>, interval: u64) -> Seq<Seq<SpecRec>> {
    if recs.len() == 0 {
        seq![Seq::<SpecRec>::empty()]
    } else {
        spec_split(recs, interval, 0, recs[0].t, Seq::empty(), Seq::empty())
    }
}

/// Bytes the records of one window contribute to cell (src, dst): IPv4
/// frames between those two addresses, both resolving to monitored hosts.
pub open spec fn spec_win_bytes(
    recs: Seq<SpecRec>,
    addrs: Seq<AddrEntry>,
    src: u32,
    dst: u32,
) -> int
    decreases recs.len(),
{
    if recs.len() == 0 {
        0
    } else {
        spec_win_bytes(recs.drop_last(), addrs, src, dst) + match spec_frame(
            recs.last().frame,
        ) {
            Some(fi) => if fi.src == src && fi.dst == dst && spec_resolves(addrs, fi.src)
                && spec_resolves(addrs, fi.dst) {
                fi.payload as int
            } else {
                0
            },
            None => 0,
        }
    }
}

/// Scan one capture, already read into memory, into its per-file timeline:
/// one traffic matrix per window of the record stream, in order. Fails
/// exactly when the capture has no readable global header.
#[verifier::rlimit(100)]
pub fn scan_capture(data: &Vec<u8>, map: &AddressMap, interval: u64) -> (r: Result<
    Vec<TrafficMatrix>,
    ScanError,
>)
    ensures
        match r {
            Ok(tl) => {
                let wins = spec_windows(
                    spec_records(data@, spec_le_magic(data@), 24),
                    interval,
                );
                &&& spec_valid_header(data@)
                &&& tl@.len() == wins.len()
                &&& forall|w: int| 0 <= w < wins.len() ==> (#[trigger] tl@[w]).wf()
                &&& forall|w: int, s: u32, d: u32|
                    0 <= w < wins.len() ==> #[trigger] cell(tl@[w]@, s, d) == spec_win_bytes(
                        wins[w],
                        map@,
                        s,
                        d,
                    )
            },
            Err(_) => !spec_valid_header(data@),
        },
{
    let n = data.len();
    if n < 24 {
        return Err(ScanError::InvalidHeader);
    }
    let le = data[0] == 0xd4 && data[1] == 0xc3 && data[2] == 0xb2 && data[3] == 0xa1;
    let be = data[0] == 0xa1 && data[1] == 0xb2 && data[2] == 0xc3 && data[3] == 0xd4;
    if !le && !be {
        return Err(ScanError::InvalidHeader);
    }
    let ghost b = data@;
    let ghost recs = spec_records(b, le, 24);
    let ghost wins = spec_windows(recs, interval);

    let mut timeline: Vec<TrafficMatrix> = Vec::new();
    let mut cur = TrafficMatrix::new();
    let mut started = false;
    let mut start_t: u64 = 0;
    let mut pos: usize = 24;
    let ghost mut ri: int = 0;
    let ghost mut cur_w: Seq<SpecRec> = Seq::empty();
    let ghost mut done_w: Seq<Seq<SpecRec>> = Seq::empty();
    let ghost mut cur_start: int = 0;

    proof {
        assert(recs.skip(0) =~= recs);
    }
    loop
        invariant
            n == b.len(),
            data@ == b,
            24 <= pos <= n,
            le == spec_le_magic(b),
            recs == spec_records(b, le, 24),
            wins == spec_windows(recs, interval),
            0 <= ri <= recs.len(),
            spec_records(b, le, pos as int) == recs.skip(ri),
            started == (ri > 0),
            ri == 0 ==> pos == 24 && timeline@.len() == 0 && cur@.len() == 0 && cur_w
                == Seq::<SpecRec>::empty() && done_w == Seq::<Seq<SpecRec>>::empty(),
            ri > 0 ==> start_t == cur_start && spec_split(
                recs,
                interval,
                ri,
                cur_start,
                cur_w,
                done_w,
            ) == wins,
            timeline@.len() == done_w.len(),
            forall|w: int| 0 <= w < done_w.len() ==> (#[trigger] timeline@[w]).wf(),
            forall|w: int, s: u32, d: u32|
                0 <= w < done_w.len() ==> #[trigger] cell(timeline@[w]@, s, d)
                    == spec_win_bytes(done_w[w], map@, s, d),
            cur.wf(),
            forall|s: u32, d: u32| #[trigger]
                cell(cur@, s, d) == spec_win_bytes(cur_w, map@, s, d),
            total(cur@) <= pos - 24,
        ensures
            recs.skip(ri).len() == 0,
        decreases n - pos,
    {
        if n - pos < 16 {
            break;
        }
        let incl = read_u32_at(data, pos + 8, le);
        if incl as usize > n - pos - 16 {
            break;
        }
        let ts_sec = read_u32_at(data, pos, le);
        let ts_usec = read_u32_at(data, pos + 4, le);
        let t: u64 = (ts_sec as u64) * 1000000 + (ts_usec as u64);
        let flen = incl as usize;
        let next_pos = pos + 16 + flen;

        let ghost rec = SpecRec {
            t: t as int,
            frame: b.subrange(pos as int + 16, pos as int + 16 + flen as int),
        };
        let ghost old_ri = ri;
        let ghost old_start = cur_start;
        let ghost old_cur_w = cur_w;
        let ghost old_done_w = done_w;
        proof {
            assert(spec_records(b, le, pos as int) == seq![rec] + spec_records(
                b,
                le,
                next_pos as int,
            ));
            assert(recs.skip(ri)[0] == recs[ri]);
            assert((seq![rec] + spec_records(b, le, next_pos as int))[0] == rec);
            assert(recs[ri] == rec);
            assert(recs.skip(ri).drop_first() =~= recs.skip(ri + 1));
            assert((seq![rec] + spec_records(b, le, next_pos as int)).drop_first()
                =~= spec_records(b, le, next_pos as int));
            assert(spec_records(b, le, next_pos as int) =~= recs.skip(ri + 1));
        }
        if !started {
            started = true;
            start_t = t;
            proof {
                cur_start = t as int;
                assert(recs.len() > 0);
                assert(wins == spec_split(
                    recs,
                    interval,
                    0,
                    recs[0].t,
                    Seq::<SpecRec>::empty(),
                    Seq::<Seq<SpecRec>>::empty(),
                ));
            }
        } else if t > start_t && t - start_t > interval {
            timeline.push(cur);
            cur = TrafficMatrix::new();
            start_t = t;
            proof {
                done_w = done_w.push(cur_w);
                cur_w = Seq::empty();
                cur_start = t as int;
            }
        }
        proof {
            // After window handling, the open matrix matches the open window.
            assert forall|s: u32, d: u32| #[trigger]
                cell(cur@, s, d) == spec_win_bytes(cur_w, map@, s, d) by {}
            let prev_w = cur_w;
            cur_w = cur_w.push(rec);
            assert(cur_w.drop_last() =~= prev_w);
            assert(cur_w.last() == rec);
        }

        let fo = parse_frame(data, pos + 16, flen);
        proof {
            assert(data@.subrange(pos as int + 16, pos as int + 16 + flen as int)
                == rec.frame);
        }
        let ghost mid = cur@;
        match fo {
            Some(fi) => {
                if map.contains_ip(fi.src) && map.contains_ip(fi.dst) {
                    proof {
                        lemma_cell_bounds(mid, fi.src, fi.dst);
                    }
                    let ok = cur.add_bytes(fi.src, fi.dst, fi.payload as u64);
                    assert(ok);
                }
            },
            None => {},
        }
        proof {
            assert forall|s: u32, d: u32| #[trigger]
                cell(cur@, s, d) == spec_win_bytes(cur_w, map@, s, d) by {
                assert(spec_win_bytes(cur_w, map@, s, d) == spec_win_bytes(
                    cur_w.drop_last(),
                    map@,
                    s,
                    d,
                ) + match spec_frame(rec.frame) {
                    Some(fi) => if fi.src == s && fi.dst == d && spec_resolves(map@, fi.src)
                        && spec_resolves(map@, fi.dst) {
                        fi.payload as int
                    } else {
                        0
                    },
                    None => 0,
                });
            }
            // One step of the window assignment.
            if old_ri == 0 {
                assert(spec_split(recs, interval, 0, recs[0].t, old_cur_w, old_done_w)
                    == spec_split(recs, interval, 1, recs[0].t, old_cur_w.push(rec), old_done_w));
                assert(spec_split(recs, interval, ri + 1, cur_start, cur_w, done_w) == wins);
            } else {
                if rec.t - old_start > interval {
                    assert(spec_split(recs, interval, old_ri, old_start, old_cur_w, old_done_w)
                        == spec_split(
                        recs,
                        interval,
                        old_ri + 1,
                        rec.t,
                        seq![rec],
                        old_done_w.push(old_cur_w),
                    ));
                    assert(cur_w =~= seq![rec]);
                } else {
                    assert(spec_split(recs, interval, old_ri, old_start, old_cur_w, old_done_w)
                        == spec_split(
                        recs,
                        interval,
                        old_ri + 1,
                        old_start,
                        old_cur_w.push(rec),
                        old_done_w,
                    ));
                }
                assert(spec_split(recs, interval, ri + 1, cur_start, cur_w, done_w) == wins);
            }
        }
        pos = next_pos;
        proof {
            ri = ri + 1;
        }
    }
    proof {
        assert(recs.skip(ri).len() == 0);
        assert(ri == recs.len());
        if ri == 0 {
            assert(recs.len() == 0);
            assert(wins == seq![Seq::<SpecRec>::empty()]);
            assert(wins =~= Seq::<Seq<SpecRec>>::empty().push(Seq::<SpecRec>::empty()));
            assert(wins == done_w.push(cur_w));
        } else {
            assert(spec_split(recs, interval, ri, cur_start, cur_w, done_w) == done_w.push(
                cur_w,
            ));
            assert(wins == done_w.push(cur_w));
        }
    }
    let ghost old_tl = timeline@;
    timeline.push(cur);
    proof {
        assert(timeline@ == old_tl.push(cur));
        assert(timeline@.len() == wins.len());
        assert forall|w: int| 0 <= w < wins.len() implies (#[trigger] timeline@[w]).wf() by {}
        assert forall|w: int, s: u32, d: u32|
            0 <= w < wins.len() implies #[trigger] cell(timeline@[w]@, s, d) == spec_win_bytes(
            wins[w],
            map@,
            s,
            d,
        ) by {
            if w < old_tl.len() {
                assert(timeline@[w] == old_tl[w]);
                assert(wins[w] == done_w[w]);
            } else {
                assert(timeline@[w] == cur);
                assert(wins[w] == cur_w);
            }
        }
    }
    Ok(timeline)
}

} // verus!
