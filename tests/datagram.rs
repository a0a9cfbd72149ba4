use vstp::decimal::u64_to_dec;
use vstp::fragment::{fragment_frame, MAX_DATAGRAM_SIZE};
use vstp::frame::{decode_frame, encode_frame, DEFAULT_MAX_FRAME_SIZE};
use vstp::reassembly::{FragmentInfo, PeerAddr, ReassemblyManager, REASSEMBLY_TTL_MS};
use vstp::types::{Flags, Frame, FrameType, VstpError};
use vstp::udp::{
    ack_for, ack_frame, encode_ack, extract_fragment_info, extract_msg_id, handle_datagram,
    is_ack_for, plan_datagrams, with_msg_id, AckWait, UdpServerConfig, ACK_MAX_ATTEMPTS,
    ACK_TIMEOUT_MS,
};

fn peer() -> PeerAddr {
    PeerAddr { ip: 0xffff_7f00_0001, port: 6970 }
}

fn header_value<'a>(f: &'a Frame, key: &[u8]) -> &'a [u8] {
    &f.headers.iter().find(|h| h.key == key).unwrap().value
}

fn deliver_all(datagrams: &[Vec<u8>], order: &[usize]) -> (Vec<Frame>, Vec<Vec<u8>>, ReassemblyManager) {
    let mut table = ReassemblyManager::new();
    let mut frames = Vec::new();
    let mut acks = Vec::new();
    for &i in order {
        let out = handle_datagram(&mut table, peer(), &datagrams[i], 1000);
        if let Some(f) = out.frame {
            frames.push(f);
        }
        if let Some(a) = out.ack {
            acks.push(a);
        }
    }
    (frames, acks, table)
}

#[test]
fn fifty_kilobytes_in_44_fragments() {
    let payload: Vec<u8> = (0..50000u32).map(|i| (i % 251) as u8).collect();
    let f = Frame::new(FrameType::Data).with_payload(payload.clone());
    let frags = fragment_frame(&f, 7, MAX_DATAGRAM_SIZE).unwrap();
    assert_eq!(frags.len(), 44);
    let mut joined = Vec::new();
    for (i, g) in frags.iter().enumerate() {
        assert!(g.flags.contains(Flags::frag()));
        assert_eq!(header_value(g, b"frag-id"), b"7");
        assert_eq!(header_value(g, b"frag-index"), i.to_string().as_bytes());
        assert_eq!(header_value(g, b"frag-total"), b"44");
        assert!(encode_frame(g).unwrap().len() <= MAX_DATAGRAM_SIZE);
        joined.extend_from_slice(&g.payload);
    }
    assert_eq!(joined, payload);
}

#[test]
fn reverse_order_reassembly_without_ack() {
    let payload: Vec<u8> = (0..50000u32).map(|i| (i % 253) as u8).collect();
    let f = Frame::new(FrameType::Data).with_header(b"file", b"x.bin").with_payload(payload.clone());
    let dgs = plan_datagrams(&f, 7, MAX_DATAGRAM_SIZE).unwrap();
    assert_eq!(dgs.len(), 45);
    let order: Vec<usize> = (0..dgs.len()).rev().collect();
    let (frames, acks, table) = deliver_all(&dgs, &order);
    assert_eq!(frames.len(), 1);
    assert_eq!(frames[0].payload, payload);
    assert_eq!(frames[0].headers, f.headers);
    assert!(!frames[0].flags.contains(Flags::frag()));
    assert!(acks.is_empty());
    assert_eq!(table.session_count(), 0);
}

#[test]
fn reverse_order_reassembly_acks_once() {
    let payload = vec![0x42u8; 50000];
    let f = with_msg_id(
        Frame::new(FrameType::Data).with_payload(payload.clone()).with_flag(Flags::req_ack()),
        5,
    );
    let dgs = plan_datagrams(&f, 123456789, MAX_DATAGRAM_SIZE).unwrap();
    for (i, d) in dgs.iter().enumerate() {
        let (g, _) = decode_frame(d, DEFAULT_MAX_FRAME_SIZE).unwrap().unwrap();
        assert_eq!(g.flags.contains(Flags::req_ack()), i + 1 == dgs.len());
    }
    let order: Vec<usize> = (0..dgs.len()).rev().collect();
    let (frames, acks, _) = deliver_all(&dgs, &order);
    assert_eq!(frames.len(), 1);
    assert_eq!(frames[0].payload, payload);
    assert!(frames[0].flags.contains(Flags::req_ack()));
    assert_eq!(acks, vec![encode_ack(5)]);
}

#[test]
fn reassembly_under_several_arrival_orders() {
    for size in [1usize, 1100, 1150, 5000, 20011] {
        let payload: Vec<u8> = (0..size).map(|i| (i * 7 % 256) as u8).collect();
        let f = Frame::new(FrameType::Data).with_payload(payload.clone());
        let frags = fragment_frame(&f, 99, MAX_DATAGRAM_SIZE).unwrap();
        let dgs: Vec<Vec<u8>> = frags.iter().map(|g| encode_frame(g).unwrap()).collect();
        let n = dgs.len();
        let forward: Vec<usize> = (0..n).collect();
        let reverse: Vec<usize> = (0..n).rev().collect();
        let evens_then_odds: Vec<usize> = (0..n).step_by(2).chain((1..n).step_by(2)).collect();
        for order in [forward, reverse, evens_then_odds] {
            let (frames, _, table) = deliver_all(&dgs, &order);
            assert_eq!(frames.len(), 1);
            assert_eq!(frames[0].payload, payload);
            assert_eq!(table.session_count(), 0);
        }
    }
}

#[test]
fn reassembly_of_a_megabyte() {
    let payload: Vec<u8> = (0..1_000_000u32).map(|i| (i % 241) as u8).collect();
    let f = Frame::new(FrameType::Data).with_payload(payload.clone());
    let dgs = plan_datagrams(&f, 42, MAX_DATAGRAM_SIZE).unwrap();
    let n = dgs.len();
    let order: Vec<usize> = (0..n).map(|i| (i * 7919) % n).collect();
    let mut seen = order.clone();
    seen.sort();
    seen.dedup();
    if seen.len() == n {
        let (frames, _, _) = deliver_all(&dgs, &order);
        assert_eq!(frames.len(), 1);
        assert_eq!(frames[0].payload, payload);
    } else {
        let rev: Vec<usize> = (0..n).rev().collect();
        let (frames, _, _) = deliver_all(&dgs, &rev);
        assert_eq!(frames[0].payload, payload);
    }
}

#[test]
fn duplicate_fragment_is_ignored() {
    let f = Frame::new(FrameType::Data).with_payload(vec![3u8; 5000]);
    let dgs = plan_datagrams(&f, 11, MAX_DATAGRAM_SIZE).unwrap();
    assert!(dgs.len() > 2);
    let mut order: Vec<usize> = vec![0, 0, 1, 1, 0];
    order.extend(2..dgs.len());
    let (frames, _, table) = deliver_all(&dgs, &order);
    assert_eq!(frames.len(), 1);
    assert_eq!(frames[0].payload, vec![3u8; 5000]);
    assert_eq!(table.session_count(), 0);
}

#[test]
fn duplicate_leaves_table_unchanged() {
    let mut table = ReassemblyManager::new();
    let frag = |i: usize| FragmentInfo { frag_id: 1, index: i, total: 3, data: vec![i as u8], req_ack: false };
    assert_eq!(table.add_fragment(peer(), frag(0), 0), None);
    assert_eq!(table.session_count(), 1);
    assert_eq!(table.add_fragment(peer(), frag(0), 0), None);
    assert_eq!(table.session_count(), 1);
    assert_eq!(table.add_fragment(peer(), frag(2), 0), None);
    assert_eq!(table.add_fragment(peer(), frag(1), 0), Some((vec![0, 1, 2], false)));
    assert_eq!(table.session_count(), 0);
}

#[test]
fn conflicting_total_is_dropped() {
    let mut table = ReassemblyManager::new();
    let a = FragmentInfo { frag_id: 1, index: 0, total: 2, data: vec![1], req_ack: false };
    let b = FragmentInfo { frag_id: 1, index: 1, total: 3, data: vec![2], req_ack: false };
    let c = FragmentInfo { frag_id: 1, index: 1, total: 2, data: vec![3], req_ack: true };
    assert_eq!(table.add_fragment(peer(), a, 0), None);
    assert_eq!(table.add_fragment(peer(), b, 0), None);
    assert_eq!(table.add_fragment(peer(), c, 0), Some((vec![1, 3], true)));
}

#[test]
fn groups_are_kept_apart_by_peer() {
    let mut table = ReassemblyManager::new();
    let other = PeerAddr { ip: 1, port: 9 };
    let a = FragmentInfo { frag_id: 1, index: 0, total: 2, data: vec![1], req_ack: false };
    let b = FragmentInfo { frag_id: 1, index: 1, total: 2, data: vec![2], req_ack: false };
    assert_eq!(table.add_fragment(peer(), a, 0), None);
    assert_eq!(table.add_fragment(other, b, 0), None);
    assert_eq!(table.session_count(), 2);
}

#[test]
fn single_fragment_group_completes_at_once() {
    let mut table = ReassemblyManager::new();
    let a = FragmentInfo { frag_id: 4, index: 0, total: 1, data: vec![8, 9], req_ack: false };
    assert_eq!(table.add_fragment(peer(), a, 0), Some((vec![8, 9], false)));
    assert_eq!(table.session_count(), 0);
}

#[test]
fn reassembly_expiry() {
    let f = Frame::new(FrameType::Data).with_payload(vec![1u8; 50000]);
    let dgs = plan_datagrams(&f, 7, MAX_DATAGRAM_SIZE).unwrap();
    let n = dgs.len();
    let mut table = ReassemblyManager::new();
    let before = table.session_count();
    for d in &dgs[..n - 1] {
        assert!(handle_datagram(&mut table, peer(), d, 0).frame.is_none());
    }
    assert_eq!(table.session_count(), before + 1);
    let out = handle_datagram(&mut table, peer(), &dgs[n - 1], 31000);
    assert!(out.frame.is_none());
    assert!(out.ack.is_none());
    // The stale group is gone; only the late fragment's own group remains.
    assert_eq!(table.session_count(), before + 1);
    assert_eq!(REASSEMBLY_TTL_MS, 30000);
}

#[test]
fn group_within_lifetime_is_kept() {
    let mut table = ReassemblyManager::new();
    let a = FragmentInfo { frag_id: 1, index: 0, total: 2, data: vec![1], req_ack: false };
    let b = FragmentInfo { frag_id: 1, index: 1, total: 2, data: vec![2], req_ack: false };
    assert_eq!(table.add_fragment(peer(), a, 1000), None);
    assert_eq!(table.add_fragment(peer(), b, 31000), Some((vec![1, 2], false)));
}

#[test]
fn oldest_group_is_evicted_at_the_cap() {
    let mut table = ReassemblyManager::with_limits(2, 30000);
    for id in 0..3u64 {
        let a = FragmentInfo { frag_id: id, index: 0, total: 2, data: vec![id as u8], req_ack: false };
        assert_eq!(table.add_fragment(peer(), a, 0), None);
    }
    assert_eq!(table.session_count(), 2);
    let late = FragmentInfo { frag_id: 0, index: 1, total: 2, data: vec![9], req_ack: false };
    assert_eq!(table.add_fragment(peer(), late, 0), None);
    let done = FragmentInfo { frag_id: 2, index: 1, total: 2, data: vec![9], req_ack: false };
    assert_eq!(table.add_fragment(peer(), done, 0), Some((vec![2, 9], false)));
}

#[test]
fn invalid_fragment_is_dropped() {
    let mut table = ReassemblyManager::new();
    let bad_index = Frame::new(FrameType::Data)
        .with_flag(Flags::frag())
        .with_header(b"frag-id", b"1")
        .with_header(b"frag-index", b"2")
        .with_header(b"frag-total", b"2")
        .with_payload(vec![1]);
    assert!(extract_fragment_info(&bad_index).is_none());
    let missing = Frame::new(FrameType::Data)
        .with_flag(Flags::frag())
        .with_header(b"frag-id", b"1")
        .with_payload(vec![1]);
    assert!(extract_fragment_info(&missing).is_none());
    for f in [bad_index, missing] {
        let out = handle_datagram(&mut table, peer(), &encode_frame(&f).unwrap(), 0);
        assert!(out.frame.is_none());
    }
    assert_eq!(table.session_count(), 0);
}

#[test]
fn extract_fragment_info_reads_headers() {
    let f = Frame::new(FrameType::Data)
        .with_flag(Flags::frag())
        .with_flag(Flags::req_ack())
        .with_header(b"frag-id", b"18446744073709551615")
        .with_header(b"frag-index", b"3")
        .with_header(b"frag-total", b"+4")
        .with_payload(vec![5, 6]);
    let fi = extract_fragment_info(&f).unwrap();
    assert_eq!(fi.frag_id, u64::MAX);
    assert_eq!(fi.index, 3);
    assert_eq!(fi.total, 4);
    assert_eq!(fi.data, vec![5, 6]);
    assert!(fi.req_ack);
}

#[test]
fn plain_frame_is_delivered_and_acked() {
    let mut table = ReassemblyManager::new();
    let f = with_msg_id(Frame::new(FrameType::Data).with_flag(Flags::req_ack()).with_payload(b"x".to_vec()), 7);
    let out = handle_datagram(&mut table, peer(), &encode_frame(&f).unwrap(), 0);
    assert_eq!(out.frame, Some(f));
    let ack = out.ack.unwrap();
    let (a, _) = decode_frame(&ack, DEFAULT_MAX_FRAME_SIZE).unwrap().unwrap();
    assert_eq!(a.typ, FrameType::Ack);
    assert_eq!(a.flags.bits(), 0);
    assert_eq!(a.headers.len(), 1);
    assert_eq!(a.headers[0].key, b"msg-id".to_vec());
    assert_eq!(a.headers[0].value, b"7".to_vec());
    assert!(a.payload.is_empty());
    assert!(is_ack_for(&a, 7));
    assert!(!is_ack_for(&a, 8));
}

#[test]
fn no_ack_without_request_or_msg_id() {
    let f = with_msg_id(Frame::new(FrameType::Data), 7);
    assert!(ack_for(&f).is_none());
    let g = Frame::new(FrameType::Data).with_flag(Flags::req_ack());
    assert!(ack_for(&g).is_none());
    let h = Frame::new(FrameType::Data).with_flag(Flags::req_ack()).with_header(b"msg-id", b"abc");
    assert!(ack_for(&h).is_none());
    assert_eq!(extract_msg_id(&h), None);
}

#[test]
fn msg_id_uses_first_readable_header() {
    let f = Frame::new(FrameType::Data).with_header(b"msg-id", b"x").with_header(b"msg-id", b"12");
    assert_eq!(extract_msg_id(&f), Some(12));
}

#[test]
fn bad_datagrams_are_dropped() {
    let mut table = ReassemblyManager::new();
    let out = handle_datagram(&mut table, peer(), &[0, 0, 1, 1, 0, 0, 0, 0, 0, 0, 0, 0], 0);
    assert!(out.frame.is_none() && out.ack.is_none());
    let out = handle_datagram(&mut table, peer(), &[0x56, 0x54, 1], 0);
    assert!(out.frame.is_none());
}

#[test]
fn ack_frame_shape() {
    let a = ack_frame(42);
    assert_eq!(a.typ, FrameType::Ack);
    assert_eq!(a.version, 1);
    assert_eq!(a.headers[0].value, u64_to_dec(42));
    assert_eq!(encode_ack(42), encode_frame(&a).unwrap());
}

#[test]
fn ack_retry_then_success() {
    let mut wait = AckWait::new(7, ACK_MAX_ATTEMPTS);
    assert_eq!(wait.on_timeout(), Ok(()));
    assert_eq!(wait.attempts, 2);
    assert!(!wait.on_frame(&ack_frame(6)));
    assert!(!wait.on_frame(&Frame::new(FrameType::Data)));
    assert!(wait.on_frame(&ack_frame(7)));
    assert!(ACK_TIMEOUT_MS * (wait.attempts as u64) <= 4000);
}

#[test]
fn ack_timeout_after_all_attempts() {
    let mut wait = AckWait::new(1, 3);
    assert_eq!(wait.on_timeout(), Ok(()));
    assert_eq!(wait.on_timeout(), Ok(()));
    assert_eq!(wait.on_timeout(), Err(VstpError::AckTimeout));
    assert_eq!(wait.attempts, 3);
}

#[test]
fn small_frame_is_one_datagram() {
    let f = Frame::new(FrameType::Data).with_payload(vec![1; 100]);
    let dgs = plan_datagrams(&f, 1, MAX_DATAGRAM_SIZE).unwrap();
    assert_eq!(dgs, vec![encode_frame(&f).unwrap()]);
}

#[test]
fn unfragmentable_frames_are_too_large() {
    let f = Frame::new(FrameType::Data)
        .with_header(&[b'k'; 255], &[b'v'; 255])
        .with_header(&[b'k'; 255], &[b'v'; 255])
        .with_header(&[b'k'; 255], &[b'v'; 255]);
    assert_eq!(plan_datagrams(&f, 1, MAX_DATAGRAM_SIZE), Err(VstpError::FrameTooLarge));
    assert_eq!(fragment_frame(&Frame::new(FrameType::Data), 1, MAX_DATAGRAM_SIZE), Err(VstpError::FrameTooLarge));
}

#[test]
fn server_config_default() {
    let c = UdpServerConfig::default();
    assert!(c.use_crc);
    assert!(c.allow_frag);
    assert_eq!(c.max_reassembly_sessions, 1000);
}
