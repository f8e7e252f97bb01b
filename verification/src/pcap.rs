//! The legacy packet-capture byte format.
//!
//! A capture is a 24-byte global header, whose magic fixes the byte order,
//! followed by records: a 16-byte record header (timestamp seconds,
//! timestamp microseconds, captured length, original length) and the
//! captured frame bytes. A frame of interest is an Ethernet header carrying
//! an IPv4 packet.

use vstd::prelude::*;

verus! {

/// Value of the 16-bit big-endian field at `i`.
pub open spec fn spec_u16_be(b: Seq<u8>, i: int) -> int {
    b[i] * 256 + b[i + 1]
}

/// Value of the 32-bit field at `i`, little-endian when `le`, else
/// big-endian.
pub open spec fn spec_u32_at(b: Seq<u8>, i: int, le: bool) -> int {
    if le {
        b[i + 3] * 16777216 + b[i + 2] * 65536 + b[i + 1] * 256 + b[i]
    } else {
        b[i] * 16777216 + b[i + 1] * 65536 + b[i + 2] * 256 + b[i + 3]
    }
}

/// The capture opens with the legacy magic written little-endian.
pub open spec fn spec_le_magic(b: Seq<u8>) -> bool {
    b.len() >= 24 && b[0] == 0xd4u8 && b[1] == 0xc3u8 && b[2] == 0xb2u8 && b[3] == 0xa1u8
}

/// The capture opens with the legacy magic written big-endian.
pub open spec fn spec_be_magic(b: Seq<u8>) -> bool {
    b.len() >= 24 && b[0] == 0xa1u8 && b[1] == 0xb2u8 && b[2] == 0xc3u8 && b[3] == 0xd4u8
}

/// The capture carries a readable legacy global header.
pub open spec fn spec_valid_header(b: Seq<u8>) -> bool {
    spec_le_magic(b) || spec_be_magic(b)
}

/// The IPv4 facts of one captured frame.
#[derive(Clone, Copy, PartialEq, Eq, Structural, Debug)]
pub struct FrameInfo {
    pub src: u32,
    pub dst: u32,
    pub payload: u16,
}

/// Reads a frame as Ethernet carrying IPv4: source address, destination
/// address, and the IPv4 payload length (total length less the IPv4
/// header). `None` for any other or truncated frame.
pub open spec fn spec_frame(f: Seq<u8>) -> Option<FrameInfo> {
    if f.len() < 34 {
        None
    } else if spec_u16_be(f, 12) != 0x0800 {
        None
    } else {
        let ver = f[14] / 16;
        let ihl = f[14] % 16;
        let total_len = spec_u16_be(f, 16);
        if ver != 4 || ihl < 5 || total_len < 4 * ihl || f.len() < 14 + total_len {
            None
        } else {
            Some(
                FrameInfo {
                    src: spec_u32_at(f, 26, false) as u32,
                    dst: spec_u32_at(f, 30, false) as u32,
                    payload: (total_len - 4 * ihl) as u16,
                },
            )
        }
    }
}

/// One capture record: its timestamp in microsecond ticks and its captured
/// frame bytes.
pub ghost struct SpecRec {
    pub t: int,
    pub frame: Seq<u8>,
}

/// The records of a capture in file order from `pos`; reading stops at the
/// first incomplete record.
pub open spec fn spec_records(b: Seq<u8>, le: bool, pos: int) -> Seq<SpecRec>
    decreases b.len() - pos,
        when 0 <= pos <= b.len()
{
    if pos + 16 > b.len() {
        Seq::empty()
    } else {
        let incl = spec_u32_at(b, pos + 8, le);
        if pos + 16 + incl > b.len() {
            Seq::empty()
        } else {
            seq![
                SpecRec {
                    t: spec_u32_at(b, pos, le) * 1000000 + spec_u32_at(b, pos + 4, le),
                    frame: b.subrange(pos + 16, pos + 16 + incl),
                },
            ] + spec_records(b, le, pos + 16 + incl)
        }
    }
}

/// 16-bit big-endian read.
pub fn read_u16_be(data: &Vec<u8>, i: usize) -> (r: u16)
    requires
        i + 2 <= data.len(),
    ensures
        r == spec_u16_be(data@, i as int),
{
    (data[i] as u16) * 256 + (data[i + 1] as u16)
}

/// 32-bit read in the capture's byte order.
pub fn read_u32_at(data: &Vec<u8>, i: usize, le: bool) -> (r: u32)
    requires
        i + 4 <= data.len(),
    ensures
        r == spec_u32_at(data@, i as int, le),
{
    if le {
        (data[i + 3] as u32) * 16777216 + (data[i + 2] as u32) * 65536 + (data[i + 1] as u32)
            * 256 + (data[i] as u32)
    } else {
        (data[i] as u32) * 16777216 + (data[i + 1] as u32) * 65536 + (data[i + 2] as u32) * 256
            + (data[i + 3] as u32)
    }
}

/// IPv4 facts of the frame stored at `data[off .. off + len]`.
pub fn parse_frame(data: &Vec<u8>, off: usize, len: usize) -> (r: Option<FrameInfo>)
    requires
        off + len <= data.len(),
    ensures
        r == spec_frame(data@.subrange(off as int, off as int + len as int)),
{
    let ghost f = data@.subrange(off as int, off as int + len as int);
    if len < 34 {
        return None;
    }
    let ethertype = read_u16_be(data, off + 12);
    proof {
        assert(f[12] == data@[off + 12]);
        assert(f[13] == data@[off + 13]);
    }
    if ethertype != 0x0800 {
        return None;
    }
    let vihl = data[off + 14];
    let ver = vihl / 16;
    let ihl = vihl % 16;
    let total_len = read_u16_be(data, off + 16);
    proof {
        assert(f[14] == data@[off + 14]);
        assert(f[16] == data@[off + 16]);
        assert(f[17] == data@[off + 17]);
    }
    if ver != 4 || ihl < 5 || total_len < 4 * (ihl as u16) || len < 14 + total_len as usize {
        return None;
    }
    let src = read_u32_at(data, off + 26, false);
    let dst = read_u32_at(data, off + 30, false);
    proof {
        assert forall|k: int| 26 <= k < 34 implies f[k] == data@[off + k] by {}
    }
    let payload = total_len - 4 * (ihl as u16);
    Some(FrameInfo { src, dst, payload })
}

} // verus!
