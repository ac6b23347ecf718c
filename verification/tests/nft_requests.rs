use resolved_nftset::nft::error::NftError;
use resolved_nftset::nft::set::{build_setelem_batch, expected_acks, handle_reply, nft_msg_type, ReplyStep};

fn begin_marker() -> Vec<u8> {
    vec![20, 0, 0, 0, 16, 0, 1, 0, 0, 0, 0, 0, 0, 0, 0, 0, 0, 0, 0, 10]
}

fn end_marker() -> Vec<u8> {
    vec![20, 0, 0, 0, 17, 0, 1, 0, 2, 0, 0, 0, 0, 0, 0, 0, 0, 0, 0, 10]
}

fn v4_message() -> Vec<u8> {
    let mut m = vec![60, 0, 0, 0, 0x0c, 0x0a, 0x05, 0x04, 1, 0, 0, 0, 0, 0, 0, 0];
    m.extend_from_slice(&[1, 0, 0, 0]);
    m.extend_from_slice(&[6, 0, 1, 0, b't', 0, 0, 0]);
    m.extend_from_slice(&[9, 0, 2, 0, b's', b'_', b'v', b'4', 0, 0, 0, 0]);
    m.extend_from_slice(&[20, 0, 3, 0x80]);
    m.extend_from_slice(&[16, 0, 0, 0x80, 12, 0, 1, 0x80, 8, 0, 1, 0, 1, 2, 3, 4]);
    m
}

#[test]
fn msg_type_of_new_set_element() {
    assert_eq!(nft_msg_type(12), 0x0a0c);
    assert_eq!(nft_msg_type(0), 0x0a00);
}

#[test]
fn batch_with_ipv4_only() {
    let req = build_setelem_batch("t", "s_v4", "s_v6", &[[1, 2, 3, 4]], &[]).unwrap();
    let mut expected = begin_marker();
    expected.extend(v4_message());
    expected.extend(end_marker());
    assert_eq!(req, expected);
}

#[test]
fn batch_with_both_families_frames_each_message() {
    let v6: [u8; 16] = [0x20, 0x01, 0x0d, 0xb8, 0, 0, 0, 0, 0, 0, 0, 0, 0, 0, 0, 1];
    let req = build_setelem_batch("t", "s_v4", "s_v6", &[[1, 2, 3, 4]], &[v6]).unwrap();
    // walk the messages by their own length fields
    let mut at = 0;
    let mut lens = Vec::new();
    while at < req.len() {
        let len = u32::from_le_bytes([req[at], req[at + 1], req[at + 2], req[at + 3]]) as usize;
        lens.push(len);
        at += len;
    }
    assert_eq!(at, req.len());
    // begin, IPv4 message, IPv6 message (12 bytes longer per element), end
    assert_eq!(lens, vec![20, 60, 72, 20]);
    let v6_msg = &req[80..152];
    assert_eq!(&v6_msg[32..36], &[b's', b'_', b'v', b'6']);
    assert_eq!(&v6_msg[56..72], &v6[..]);
}

#[test]
fn batch_without_addresses_is_only_markers() {
    let req = build_setelem_batch("t", "a", "b", &[], &[]).unwrap();
    let mut expected = begin_marker();
    expected.extend(end_marker());
    assert_eq!(req, expected);
}

#[test]
fn batch_with_too_long_table_name_is_refused() {
    let table = "x".repeat(70000);
    let r = build_setelem_batch(&table, "s_v4", "s_v6", &[[1, 2, 3, 4]], &[]);
    assert!(matches!(r, Err(NftError::ProtocolError)));
    // without addresses the name is never written
    assert!(build_setelem_batch(&table, "s_v4", "s_v6", &[], &[]).is_ok());
}

#[test]
fn batch_with_too_many_addresses_is_refused() {
    let many = vec![[10, 0, 0, 1]; 5000];
    let r = build_setelem_batch("t", "s_v4", "s_v6", &many, &[]);
    assert!(matches!(r, Err(NftError::ProtocolError)));
    let fitting = vec![[10, 0, 0, 1]; 4095];
    assert!(build_setelem_batch("t", "s_v4", "s_v6", &fitting, &[]).is_ok());
}

fn reply(ty: u16, code: Option<i32>) -> Vec<u8> {
    let mut r = vec![0u8; 16];
    r[4..6].copy_from_slice(&ty.to_le_bytes());
    if let Some(c) = code {
        r.extend_from_slice(&c.to_le_bytes());
    }
    let len = r.len() as u32;
    r[0..4].copy_from_slice(&len.to_le_bytes());
    r
}

#[test]
fn acknowledgement_of_last_message_finishes_request() {
    assert!(matches!(handle_reply(&reply(2, Some(0)), 1), ReplyStep::Done));
}

#[test]
fn acknowledgement_with_more_due_keeps_waiting() {
    assert!(matches!(handle_reply(&reply(2, Some(0)), 2), ReplyStep::Continue(1)));
}

#[test]
fn second_message_failing_fails_the_request() {
    // IPv4 message acknowledged, IPv6 set missing
    let first = handle_reply(&reply(2, Some(0)), 2);
    let pending = match first {
        ReplyStep::Continue(left) => left,
        other => panic!("unexpected {:?}", other),
    };
    assert!(matches!(
        handle_reply(&reply(2, Some(-2)), pending),
        ReplyStep::Failed(NftError::SetNotFound)
    ));
}

#[test]
fn acks_counted_per_address_family() {
    assert_eq!(expected_acks(&[[1, 2, 3, 4]], &[]), 1);
    assert_eq!(expected_acks(&[[1, 2, 3, 4]], &[[0; 16]]), 2);
    assert_eq!(expected_acks(&[], &[[0; 16]]), 1);
    assert_eq!(expected_acks(&[], &[]), 0);
}

#[test]
fn missing_set_is_reported() {
    assert!(matches!(handle_reply(&reply(2, Some(-2)), 1), ReplyStep::Failed(NftError::SetNotFound)));
}

#[test]
fn other_kernel_error_is_reported() {
    assert!(matches!(
        handle_reply(&reply(2, Some(-1)), 1),
        ReplyStep::Failed(NftError::NetlinkError(1))
    ));
    assert!(matches!(
        handle_reply(&reply(2, Some(i32::MIN)), 1),
        ReplyStep::Failed(NftError::NetlinkError(i32::MIN))
    ));
}

#[test]
fn short_reply_is_protocol_error() {
    assert!(matches!(handle_reply(&[1, 2, 3], 1), ReplyStep::Failed(NftError::ProtocolError)));
}

#[test]
fn error_message_without_code_is_protocol_error() {
    assert!(matches!(handle_reply(&reply(2, None), 1), ReplyStep::Failed(NftError::ProtocolError)));
}

#[test]
fn done_message_finishes_request() {
    assert!(matches!(handle_reply(&reply(3, None), 2), ReplyStep::Done));
    assert!(matches!(handle_reply(&reply(3, None), 0), ReplyStep::Done));
}

#[test]
fn unrelated_message_is_passed_over() {
    assert!(matches!(handle_reply(&reply(0x0a0c, None), 2), ReplyStep::Continue(2)));
}
