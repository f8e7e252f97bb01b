use heatmap::aggregate::aggregate;
use heatmap::groups::{group_of_id, host_group, parse_host_numeric, GROUP_SIZE, NUM_GROUPS};
use heatmap::ipaddr::parse_ipv4;
use heatmap::matrix::TrafficMatrix;
use heatmap::merge::{max_timeline_len, merge_interval, pad_timelines};
use heatmap::render::render_matrix;
use heatmap::resolver::{AddressMap, ConfigError};
use heatmap::scanner::scan_capture;
use heatmap::topology::monitored_hosts;

const TICKS_PER_SEC: u64 = 1_000_000;

fn push_u32_le(v: &mut Vec<u8>, x: u32) {
    v.extend_from_slice(&x.to_le_bytes());
}

fn le_header() -> Vec<u8> {
    let mut v = vec![0xd4u8, 0xc3, 0xb2, 0xa1];
    push_u32_le(&mut v, 0x0004_0002); // version 2.4
    push_u32_le(&mut v, 0); // thiszone
    push_u32_le(&mut v, 0); // sigfigs
    push_u32_le(&mut v, 65535); // snaplen
    push_u32_le(&mut v, 1); // ethernet
    v
}

fn ipv4_frame(src: u32, dst: u32, payload_len: usize) -> Vec<u8> {
    let mut f = vec![0u8; 12]; // mac addresses
    f.extend_from_slice(&[0x08, 0x00]); // ethertype: ipv4
    let total_len = (20 + payload_len) as u16;
    f.push(0x45); // version 4, ihl 5
    f.push(0); // tos
    f.extend_from_slice(&total_len.to_be_bytes());
    f.extend_from_slice(&[0, 0, 0, 0]); // id, flags+fragment
    f.push(64); // ttl
    f.push(17); // protocol
    f.extend_from_slice(&[0, 0]); // checksum
    f.extend_from_slice(&src.to_be_bytes());
    f.extend_from_slice(&dst.to_be_bytes());
    f.extend_from_slice(&vec![0u8; payload_len]);
    f
}

fn push_record(v: &mut Vec<u8>, sec: u32, usec: u32, frame: &[u8]) {
    push_u32_le(v, sec);
    push_u32_le(v, usec);
    push_u32_le(v, frame.len() as u32);
    push_u32_le(v, frame.len() as u32);
    v.extend_from_slice(frame);
}

fn build_map(pairs: &[(u32, &str)]) -> AddressMap {
    let owned: Vec<(u32, String)> = pairs.iter().map(|(a, h)| (*a, h.to_string())).collect();
    AddressMap::build(&owned).unwrap()
}

const IP_H1: u32 = 0x0a00_0001;
const IP_H10: u32 = 0x0a00_000a;
const IP_OUT: u32 = 0x0a00_00ff;

fn two_host_map() -> AddressMap {
    build_map(&[(IP_H1, "h1"), (IP_H10, "h10")])
}

#[test]
fn host_numeric_parses_plain_suffix() {
    assert_eq!(parse_host_numeric("h12"), Some(12));
    assert_eq!(parse_host_numeric("h1"), Some(1));
    assert_eq!(parse_host_numeric("s007"), Some(7));
    assert_eq!(parse_host_numeric("h"), None);
    assert_eq!(parse_host_numeric(""), None);
    assert_eq!(parse_host_numeric("h1x"), None);
    assert_eq!(parse_host_numeric("h18446744073709551615"), Some(u64::MAX));
    assert_eq!(parse_host_numeric("h18446744073709551616"), None);
}

#[test]
fn dotted_quads_parse_to_their_value() {
    assert_eq!(parse_ipv4("10.0.0.1"), Some(0x0a00_0001));
    assert_eq!(parse_ipv4("255.255.255.255"), Some(u32::MAX));
    assert_eq!(parse_ipv4("0.0.0.0"), Some(0));
    assert_eq!(parse_ipv4("1.2.3"), None);
    assert_eq!(parse_ipv4("1.2.3.4.5"), None);
    assert_eq!(parse_ipv4("256.0.0.1"), None);
    assert_eq!(parse_ipv4("01.0.0.1"), None);
    assert_eq!(parse_ipv4("1..2.3"), None);
    assert_eq!(parse_ipv4(""), None);
    assert_eq!(parse_ipv4("a.b.c.d"), None);
}

#[test]
fn group_of_id_divides_by_group_size() {
    assert_eq!(GROUP_SIZE, 9);
    assert_eq!(group_of_id(1), 0);
    assert_eq!(group_of_id(9), 0);
    assert_eq!(group_of_id(10), 1);
    assert_eq!(group_of_id(54), 5);
}

#[test]
fn host_group_total_on_monitored_shapes() {
    assert_eq!(host_group("h1"), Some(0));
    assert_eq!(host_group("h10"), Some(1));
    assert_eq!(host_group("h54"), Some(5));
    assert_eq!(host_group("h55"), None); // group 6 is out of range
    assert_eq!(host_group("h0"), None); // ids start at 1
    assert_eq!(host_group("hx"), None);
}

#[test]
fn build_map_rejects_bad_host() {
    let bad = vec![(IP_H1, "h1".to_string()), (IP_OUT, "router".to_string())];
    match AddressMap::build(&bad) {
        Err(ConfigError::BadHostId { host }) => assert_eq!(host, "router"),
        Ok(_) => panic!("expected a configuration error"),
    }
}

#[test]
fn build_map_last_pair_wins() {
    let pairs = vec![(IP_H1, "h1".to_string()), (IP_H1, "h10".to_string())];
    let m = AddressMap::build(&pairs).unwrap();
    assert_eq!(m.len(), 1);
    assert_eq!(m.group_of_ip(IP_H1), Some(1));
    assert_eq!(m.group_of_ip(IP_OUT), None);
}

#[test]
fn monitored_hosts_drops_dummies() {
    let links = vec!["h1".to_string(), "sw0".to_string(), "h2".to_string()];
    let dummies = Some(vec!["sw0".to_string()]);
    let hosts = monitored_hosts(&links, &dummies);
    assert_eq!(hosts, vec!["h1".to_string(), "h2".to_string()]);
    let all = monitored_hosts(&links, &None);
    assert_eq!(all, links);
}

#[test]
fn add_bytes_accumulates_per_pair() {
    let mut m = TrafficMatrix::new();
    assert!(m.add_bytes(1, 2, 100));
    assert!(m.add_bytes(1, 2, 50));
    assert!(m.add_bytes(2, 1, 7));
    assert_eq!(m.get_bytes(1, 2), 150);
    assert_eq!(m.get_bytes(2, 1), 7);
    assert_eq!(m.get_bytes(3, 4), 0);
    assert_eq!(m.pair_count(), 2);
}

#[test]
fn add_bytes_refuses_overflow() {
    let mut m = TrafficMatrix::new();
    assert!(m.add_bytes(1, 2, u64::MAX));
    assert!(!m.add_bytes(1, 2, 1));
    assert_eq!(m.get_bytes(1, 2), u64::MAX);
}

#[test]
fn empty_capture_yields_one_empty_matrix() {
    let map = two_host_map();
    let data = le_header();
    let tl = scan_capture(&data, &map, 10 * TICKS_PER_SEC).unwrap();
    assert_eq!(tl.len(), 1);
    assert_eq!(tl[0].pair_count(), 0);
}

#[test]
fn bad_header_is_fatal_for_the_file() {
    let map = two_host_map();
    let empty: Vec<u8> = Vec::new();
    assert!(scan_capture(&empty, &map, 10).is_err());
    let mut junk = le_header();
    junk[0] = 0x00;
    assert!(scan_capture(&junk, &map, 10).is_err());
}

#[test]
fn truncated_record_ends_the_scan() {
    let map = two_host_map();
    let mut data = le_header();
    push_record(&mut data, 0, 0, &ipv4_frame(IP_H1, IP_H10, 100));
    // A record header promising more bytes than remain.
    push_u32_le(&mut data, 1);
    push_u32_le(&mut data, 0);
    push_u32_le(&mut data, 4096);
    push_u32_le(&mut data, 4096);
    let tl = scan_capture(&data, &map, 10 * TICKS_PER_SEC).unwrap();
    assert_eq!(tl.len(), 1);
    assert_eq!(tl[0].get_bytes(IP_H1, IP_H10), 100);
}

#[test]
fn unmapped_addresses_contribute_nothing() {
    let map = two_host_map();
    let mut data = le_header();
    push_record(&mut data, 0, 0, &ipv4_frame(IP_H1, IP_OUT, 100));
    push_record(&mut data, 1, 0, &ipv4_frame(IP_OUT, IP_H10, 100));
    let tl = scan_capture(&data, &map, 10 * TICKS_PER_SEC).unwrap();
    assert_eq!(tl.len(), 1);
    assert_eq!(tl[0].pair_count(), 0);
}

#[test]
fn non_ipv4_frames_are_skipped() {
    let map = two_host_map();
    let mut data = le_header();
    let mut arp = ipv4_frame(IP_H1, IP_H10, 40);
    arp[12] = 0x08;
    arp[13] = 0x06; // ethertype: not ipv4
    push_record(&mut data, 0, 0, &arp);
    push_record(&mut data, 0, 1, &[0u8; 10]); // malformed, too short
    push_record(&mut data, 0, 2, &ipv4_frame(IP_H1, IP_H10, 25));
    let tl = scan_capture(&data, &map, 10 * TICKS_PER_SEC).unwrap();
    assert_eq!(tl.len(), 1);
    assert_eq!(tl[0].get_bytes(IP_H1, IP_H10), 25);
}

#[test]
fn big_endian_captures_are_read_too() {
    let map = two_host_map();
    let mut data = vec![0xa1u8, 0xb2, 0xc3, 0xd4];
    data.extend_from_slice(&[0, 2, 0, 4]);
    data.extend_from_slice(&[0u8; 12]);
    data.extend_from_slice(&1u32.to_be_bytes());
    let frame = ipv4_frame(IP_H1, IP_H10, 33);
    data.extend_from_slice(&0u32.to_be_bytes());
    data.extend_from_slice(&0u32.to_be_bytes());
    data.extend_from_slice(&(frame.len() as u32).to_be_bytes());
    data.extend_from_slice(&(frame.len() as u32).to_be_bytes());
    data.extend_from_slice(&frame);
    let tl = scan_capture(&data, &map, 10 * TICKS_PER_SEC).unwrap();
    assert_eq!(tl.len(), 1);
    assert_eq!(tl[0].get_bytes(IP_H1, IP_H10), 33);
}

#[test]
fn windows_split_on_the_triggering_timestamp() {
    let map = two_host_map();
    let mut data = le_header();
    push_record(&mut data, 0, 0, &ipv4_frame(IP_H1, IP_H10, 100));
    push_record(&mut data, 1, 0, &ipv4_frame(IP_H1, IP_H10, 50));
    push_record(&mut data, 12, 0, &ipv4_frame(IP_H1, IP_H10, 9));
    push_record(&mut data, 24, 0, &ipv4_frame(IP_H10, IP_H1, 5));
    let tl = scan_capture(&data, &map, 10 * TICKS_PER_SEC).unwrap();
    assert_eq!(tl.len(), 3);
    assert_eq!(tl[0].get_bytes(IP_H1, IP_H10), 150);
    assert_eq!(tl[1].get_bytes(IP_H1, IP_H10), 9);
    assert_eq!(tl[2].get_bytes(IP_H10, IP_H1), 5);
}

#[test]
fn padding_normalizes_to_the_longest() {
    let map = two_host_map();
    let mut a = le_header();
    push_record(&mut a, 0, 0, &ipv4_frame(IP_H1, IP_H10, 10));
    push_record(&mut a, 12, 0, &ipv4_frame(IP_H1, IP_H10, 20));
    let mut b = le_header();
    push_record(&mut b, 0, 0, &ipv4_frame(IP_H10, IP_H1, 7));
    let ta = scan_capture(&a, &map, 10 * TICKS_PER_SEC).unwrap();
    let tb = scan_capture(&b, &map, 10 * TICKS_PER_SEC).unwrap();
    assert_eq!(ta.len(), 2);
    assert_eq!(tb.len(), 1);
    let mut tls = vec![ta, tb];
    assert_eq!(max_timeline_len(&tls), 2);
    pad_timelines(&mut tls);
    assert_eq!(tls[0].len(), 2);
    assert_eq!(tls[1].len(), 2);
    assert_eq!(tls[1][1].pair_count(), 0);
    // Padded intervals merge to the sum of the unpadded files alone.
    let m1 = merge_interval(&tls, 1).unwrap();
    assert_eq!(m1.get_bytes(IP_H1, IP_H10), 20);
    assert_eq!(m1.get_bytes(IP_H10, IP_H1), 0);
}

#[test]
fn padding_equal_lengths_is_a_no_op() {
    let map = two_host_map();
    let mut a = le_header();
    push_record(&mut a, 0, 0, &ipv4_frame(IP_H1, IP_H10, 10));
    let mut b = le_header();
    push_record(&mut b, 0, 0, &ipv4_frame(IP_H10, IP_H1, 7));
    let ta = scan_capture(&a, &map, 10 * TICKS_PER_SEC).unwrap();
    let tb = scan_capture(&b, &map, 10 * TICKS_PER_SEC).unwrap();
    let mut tls = vec![ta, tb];
    pad_timelines(&mut tls);
    assert_eq!(tls[0].len(), 1);
    assert_eq!(tls[1].len(), 1);
    assert_eq!(tls[0][0].get_bytes(IP_H1, IP_H10), 10);
    assert_eq!(tls[1][0].get_bytes(IP_H10, IP_H1), 7);
}

#[test]
fn merge_conserves_bytes() {
    let mut a = TrafficMatrix::new();
    assert!(a.add_bytes(1, 2, 100));
    assert!(a.add_bytes(2, 3, 11));
    let mut b = TrafficMatrix::new();
    assert!(b.add_bytes(1, 2, 30));
    let tls = vec![vec![a], vec![b]];
    let m = merge_interval(&tls, 0).unwrap();
    assert_eq!(m.get_bytes(1, 2), 130);
    assert_eq!(m.get_bytes(2, 3), 11);
    assert_eq!(m.get_bytes(3, 2), 0);
}

#[test]
fn merge_order_does_not_matter() {
    let mk = |v: u64, s: u32, d: u32| {
        let mut m = TrafficMatrix::new();
        assert!(m.add_bytes(s, d, v));
        m
    };
    let t1 = vec![vec![mk(5, 1, 2)], vec![mk(7, 1, 2)], vec![mk(9, 2, 1)]];
    let t2 = vec![vec![mk(9, 2, 1)], vec![mk(5, 1, 2)], vec![mk(7, 1, 2)]];
    let m1 = merge_interval(&t1, 0).unwrap();
    let m2 = merge_interval(&t2, 0).unwrap();
    assert_eq!(m1.get_bytes(1, 2), m2.get_bytes(1, 2));
    assert_eq!(m1.get_bytes(2, 1), m2.get_bytes(2, 1));
    assert_eq!(m1.get_bytes(1, 2), 12);
    assert_eq!(m1.get_bytes(2, 1), 9);
}

#[test]
fn merge_refuses_cell_overflow() {
    let mut a = TrafficMatrix::new();
    assert!(a.add_bytes(1, 2, u64::MAX));
    let mut b = TrafficMatrix::new();
    assert!(b.add_bytes(1, 2, 1));
    let tls = vec![vec![a], vec![b]];
    assert!(merge_interval(&tls, 0).is_none());
}

#[test]
fn aggregate_conserves_bytes_across_groups() {
    let map = two_host_map();
    let mut m = TrafficMatrix::new();
    assert!(m.add_bytes(IP_H1, IP_H10, 180));
    assert!(m.add_bytes(IP_H10, IP_H1, 20));
    let g = aggregate(&m, &map).unwrap();
    assert_eq!(g.get(0, 1), 180);
    assert_eq!(g.get(1, 0), 20);
    let mut sum: u64 = 0;
    for i in 0..NUM_GROUPS {
        for j in 0..NUM_GROUPS {
            sum += g.get(i, j);
        }
    }
    assert_eq!(sum, 200);
}

#[test]
fn aggregate_fails_on_unmonitored_address() {
    let map = two_host_map();
    let mut m = TrafficMatrix::new();
    assert!(m.add_bytes(IP_H1, IP_OUT, 5));
    assert!(aggregate(&m, &map).is_none());
}

#[test]
fn two_files_one_interval_group_cell() {
    // Two capture files; 100 + 50 bytes h1 -> h10 in interval 0 of file A,
    // 30 bytes h1 -> h10 in interval 0 of file B; h1 is in group 0 and h10
    // in group 1, so the merged group matrix of interval 0 holds 180 there.
    let map = two_host_map();
    let mut a = le_header();
    push_record(&mut a, 0, 0, &ipv4_frame(IP_H1, IP_H10, 100));
    push_record(&mut a, 1, 0, &ipv4_frame(IP_H1, IP_H10, 50));
    push_record(&mut a, 12, 0, &ipv4_frame(IP_H1, IP_OUT, 40));
    push_record(&mut a, 24, 0, &ipv4_frame(IP_OUT, IP_H10, 40));
    let mut b = le_header();
    push_record(&mut b, 0, 0, &ipv4_frame(IP_H1, IP_H10, 30));
    push_record(&mut b, 12, 0, &ipv4_frame(IP_OUT, IP_H1, 40));
    push_record(&mut b, 24, 0, &ipv4_frame(IP_H10, IP_OUT, 40));
    let ta = scan_capture(&a, &map, 10 * TICKS_PER_SEC).unwrap();
    let tb = scan_capture(&b, &map, 10 * TICKS_PER_SEC).unwrap();
    assert_eq!(ta.len(), 3);
    assert_eq!(tb.len(), 3);
    let mut tls = vec![ta, tb];
    pad_timelines(&mut tls);
    let merged = merge_interval(&tls, 0).unwrap();
    let g = aggregate(&merged, &map).unwrap();
    assert_eq!(g.get(0, 1), 180);
    for i in 0..NUM_GROUPS {
        for j in 0..NUM_GROUPS {
            if !(i == 0 && j == 1) {
                assert_eq!(g.get(i, j), 0);
            }
        }
    }
}

#[test]
fn no_files_merge_to_an_empty_matrix() {
    let tls: Vec<Vec<TrafficMatrix>> = Vec::new();
    assert_eq!(max_timeline_len(&tls), 0);
    let m = merge_interval(&tls, 0).unwrap();
    assert_eq!(m.pair_count(), 0);
}

#[test]
fn error_messages_name_the_fault() {
    let empty: Vec<u8> = Vec::new();
    let map = two_host_map();
    let e = scan_capture(&empty, &map, 10).unwrap_err();
    assert!(e.message().contains("header"));
    let bad = vec![(IP_H1, "router".to_string())];
    let c = AddressMap::build(&bad).unwrap_err();
    assert!(c.message().contains("numeric suffix"));
}

#[test]
fn render_writes_rows_of_decimal_counts() {
    let map = two_host_map();
    let mut m = TrafficMatrix::new();
    assert!(m.add_bytes(IP_H1, IP_H10, 180));
    let g = aggregate(&m, &map).unwrap();
    let text = String::from_utf8(render_matrix(&g)).unwrap();
    let expected = "0 180 0 0 0 0\n0 0 0 0 0 0\n0 0 0 0 0 0\n0 0 0 0 0 0\n0 0 0 0 0 0\n0 0 0 0 0 0\n";
    assert_eq!(text, expected);
}

#[test]
fn render_multi_digit_counts() {
    let map = two_host_map();
    let mut m = TrafficMatrix::new();
    assert!(m.add_bytes(IP_H1, IP_H1, 1234567890));
    let g = aggregate(&m, &map).unwrap();
    let text = String::from_utf8(render_matrix(&g)).unwrap();
    assert!(text.starts_with("1234567890 0 0 0 0 0\n"));
    assert_eq!(text.lines().count(), 6);
}
