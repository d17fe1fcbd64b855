use scsync::blockdb::CHUNK_SIZE;
use scsync::codec::MTU;
use scsync::wire::{
    is_ascending, BlockRequest, Frame, Msg, MyCodec, RecordKind, TransferPayload, TransferStatus,
    VarintIter, WireError,
};

fn encoded(frame: &Frame) -> Vec<u8> {
    let mut out: Vec<u8> = Vec::new();
    MyCodec::encode(frame, &mut out).unwrap();
    out
}

#[test]
fn payload_is_tag_id_and_bytes() {
    let payload = TransferPayload { chunkid: 300, data: vec![7, 8, 9] };
    let mut out: Vec<u8> = Vec::new();
    assert_eq!(MyCodec::encode_payload(&payload, &mut out), Ok(()));
    assert_eq!(out, vec![0u8, 0xac, 0x02, 7, 8, 9]);
}

#[test]
fn payload_that_fills_the_datagram_is_written() {
    let chunkid: u64 = 1 << 56;
    let payload = TransferPayload { chunkid, data: vec![1u8; CHUNK_SIZE] };
    let mut out: Vec<u8> = Vec::new();
    assert_eq!(MyCodec::encode_payload(&payload, &mut out), Ok(()));
    assert_eq!(out.len(), MTU);
    let back = MyCodec::decode(&out).unwrap().unwrap();
    match back {
        Frame::TransferPayload(p) => {
            assert_eq!(p.chunkid, chunkid);
            assert_eq!(p.data, vec![1u8; CHUNK_SIZE]);
        }
        _ => panic!("not a payload"),
    }
}

#[test]
fn payload_of_one_byte_more_is_refused() {
    let payload = TransferPayload { chunkid: 1 << 56, data: vec![1u8; CHUNK_SIZE + 1] };
    let mut out: Vec<u8> = vec![5u8];
    assert_eq!(MyCodec::encode_payload(&payload, &mut out), Err(WireError::Oversize));
    assert_eq!(out, vec![5u8]);
    let long_id = TransferPayload { chunkid: u64::MAX, data: vec![1u8; CHUNK_SIZE] };
    assert_eq!(MyCodec::encode_payload(&long_id, &mut out), Err(WireError::Oversize));
    let short_id = TransferPayload { chunkid: 0, data: vec![1u8; MTU - 2] };
    assert_eq!(MyCodec::encode_payload(&short_id, &mut out), Ok(()));
    let too_long = TransferPayload { chunkid: 0, data: vec![1u8; MTU - 1] };
    assert_eq!(MyCodec::encode_payload(&too_long, &mut out), Err(WireError::Oversize));
}

#[test]
fn status_is_tag_and_run_lengths() {
    let status = TransferStatus { missing_ranges: vec![(2, 4), (7, 11)] };
    let mut out: Vec<u8> = Vec::new();
    assert_eq!(MyCodec::encode_status(&status, &mut out), Ok(()));
    assert_eq!(out, vec![1u8, 2, 2, 3, 4]);
}

#[test]
fn status_comes_back() {
    let ranges: Vec<(u64, u64)> = vec![(0, 1), (1, 5), (300, 70_000), (u64::MAX - 1, u64::MAX)];
    let out = encoded(&Frame::TransferStatus(TransferStatus { missing_ranges: ranges.clone() }));
    match MyCodec::decode(&out).unwrap().unwrap() {
        Frame::TransferStatus(s) => assert_eq!(s.missing_ranges, ranges),
        _ => panic!("not a status"),
    }
}

#[test]
fn status_without_ranges_is_the_tag_alone() {
    let out = encoded(&Frame::TransferStatus(TransferStatus { missing_ranges: Vec::new() }));
    assert_eq!(out, vec![1u8]);
    match MyCodec::decode(&out).unwrap().unwrap() {
        Frame::TransferStatus(s) => assert!(s.missing_ranges.is_empty()),
        _ => panic!("not a status"),
    }
}

#[test]
fn status_that_is_too_long_is_cut() {
    let mut ranges: Vec<(u64, u64)> = Vec::new();
    for i in 0..2000u64 {
        ranges.push((2 * i, 2 * i + 1));
    }
    let out = encoded(&Frame::TransferStatus(TransferStatus { missing_ranges: ranges.clone() }));
    assert_eq!(out.len(), MTU);
    match MyCodec::decode(&out).unwrap().unwrap() {
        Frame::TransferStatus(s) => {
            assert_eq!(s.missing_ranges.len(), (MTU - 1) / 2);
            assert_eq!(s.missing_ranges[..], ranges[..(MTU - 1) / 2]);
        }
        _ => panic!("not a status"),
    }
}

#[test]
fn status_is_cut_before_a_number_that_does_not_fit() {
    let mut ranges: Vec<(u64, u64)> = Vec::new();
    for i in 0..729u64 {
        ranges.push((2 * i, 2 * i + 1));
    }
    ranges.push((1457 + 200, 1457 + 201));
    let out = encoded(&Frame::TransferStatus(TransferStatus { missing_ranges: ranges.clone() }));
    assert_eq!(out.len(), MTU - 1);
    match MyCodec::decode(&out).unwrap().unwrap() {
        Frame::TransferStatus(s) => assert_eq!(s.missing_ranges[..], ranges[..729]),
        _ => panic!("not a status"),
    }
}

#[test]
fn status_out_of_order_is_refused() {
    let mut out: Vec<u8> = Vec::new();
    let crossed = TransferStatus { missing_ranges: vec![(5, 9), (8, 10)] };
    assert_eq!(MyCodec::encode_status(&crossed, &mut out), Err(WireError::Unordered));
    let backwards = TransferStatus { missing_ranges: vec![(5, 4)] };
    assert_eq!(MyCodec::encode_status(&backwards, &mut out), Err(WireError::Unordered));
    assert!(out.is_empty());
    assert!(is_ascending(&vec![(1, 1), (1, 2), (2, 2)]));
    assert!(!is_ascending(&vec![(1, 3), (2, 4)]));
}

#[test]
fn record_is_tag_and_body() {
    let mut out: Vec<u8> = Vec::new();
    assert_eq!(MyCodec::encode_record(RecordKind::BlockRequest, &[0xa1, 0x02], &mut out), Ok(()));
    assert_eq!(out, vec![4u8, 0xa1, 0x02]);
    match MyCodec::decode(&out).unwrap().unwrap() {
        Frame::Record { kind, body } => {
            assert_eq!(kind, RecordKind::BlockRequest);
            assert_eq!(body, vec![0xa1u8, 0x02]);
        }
        _ => panic!("not a record"),
    }
}

#[test]
fn record_kinds_have_their_tags() {
    assert_eq!(RecordKind::RootUpdate.tag(), 2);
    assert_eq!(RecordKind::RootUpdateResponse.tag(), 3);
    assert_eq!(RecordKind::BlockRequest.tag(), 4);
    assert_eq!(RecordKind::BlockRequestResponse.tag(), 5);
    for (tag, kind) in [
        (2u8, RecordKind::RootUpdate),
        (3u8, RecordKind::RootUpdateResponse),
        (4u8, RecordKind::BlockRequest),
        (5u8, RecordKind::BlockRequestResponse),
    ] {
        match MyCodec::decode(&[tag, 1]).unwrap().unwrap() {
            Frame::Record { kind: found, body } => {
                assert_eq!(found, kind);
                assert_eq!(body, vec![1u8]);
            }
            _ => panic!("not a record"),
        }
    }
}

#[test]
fn record_that_is_too_long_is_refused() {
    let mut out: Vec<u8> = Vec::new();
    assert_eq!(MyCodec::encode_record(RecordKind::RootUpdate, &vec![0u8; MTU - 1], &mut out), Ok(()));
    assert_eq!(out.len(), MTU);
    let mut other: Vec<u8> = Vec::new();
    assert_eq!(
        MyCodec::encode_record(RecordKind::RootUpdate, &vec![0u8; MTU], &mut other),
        Err(WireError::Oversize)
    );
    assert!(other.is_empty());
}

#[test]
fn decode_says_what_is_wrong() {
    assert!(MyCodec::decode(&[]).unwrap().is_none());
    assert_eq!(MyCodec::decode(&[6]).err(), Some(WireError::UnknownTag(6)));
    assert_eq!(MyCodec::decode(&[0xff, 1, 2]).err(), Some(WireError::UnknownTag(0xff)));
    assert_eq!(MyCodec::decode(&[0]).err(), Some(WireError::Truncated));
    assert_eq!(MyCodec::decode(&[0, 0x80]).err(), Some(WireError::Truncated));
    let overflow: Vec<u8> = vec![0, 0xff, 0xff, 0xff, 0xff, 0xff, 0xff, 0xff, 0xff, 0xff, 0x02];
    assert_eq!(MyCodec::decode(&overflow).err(), Some(WireError::Overflow));
}

#[test]
fn status_with_a_broken_tail_keeps_what_came_before() {
    match MyCodec::decode(&[1, 2, 2, 3]).unwrap().unwrap() {
        Frame::TransferStatus(s) => assert_eq!(s.missing_ranges, vec![(2, 4)]),
        _ => panic!("not a status"),
    }
    match MyCodec::decode(&[1, 2, 2, 3, 0x80]).unwrap().unwrap() {
        Frame::TransferStatus(s) => assert_eq!(s.missing_ranges, vec![(2, 4)]),
        _ => panic!("not a status"),
    }
}

#[test]
fn payload_may_be_empty() {
    let out = encoded(&Frame::TransferPayload(TransferPayload { chunkid: 9, data: Vec::new() }));
    assert_eq!(out, vec![0u8, 9]);
    match MyCodec::decode(&out).unwrap().unwrap() {
        Frame::TransferPayload(p) => {
            assert_eq!(p.chunkid, 9);
            assert!(p.data.is_empty());
        }
        _ => panic!("not a payload"),
    }
}

#[test]
fn messages_have_their_tags() {
    assert_eq!(Msg::TransferPayload(TransferPayload { chunkid: 0, data: Vec::new() }).tag(), 0);
    assert_eq!(Msg::TransferStatus(TransferStatus { missing_ranges: Vec::new() }).tag(), 1);
    assert_eq!(Msg::BlockRequest(BlockRequest { blockid: [0; 32] }).tag(), 4);
}

#[test]
fn varints_are_read_one_after_the_other() {
    let mut iter = VarintIter::new(vec![1, 0x80, 1, 2, 0x80]);
    assert_eq!(iter.next(), Some(1));
    assert_eq!(iter.next(), Some(0x80));
    assert_eq!(iter.next(), Some(2));
    assert_eq!(iter.next(), None);
    assert_eq!(iter.next(), None);
}
