use scsync::codec::MTU;
use scsync::stream::{ChunkInfo, Packet};
use scsync::varint::VarintError;

#[test]
fn chunk_info_counts_the_id_field() {
    let info = ChunkInfo::new(300);
    assert_eq!(info.id(), 300);
    assert_eq!(info.id_field_length(), 2);
    assert_eq!(info.data_length(), MTU - 2);
    assert_eq!(ChunkInfo::new(0).data_length(), MTU - 1);
    assert_eq!(ChunkInfo::new(u64::MAX).data_length(), MTU - 10);
}

#[test]
fn new_packet_is_a_full_datagram() {
    let packet = Packet::new(300, vec![1u8, 2, 3]);
    assert_eq!(packet.id(), 300);
    assert_eq!(packet.id_field_size(), 2);
    assert_eq!(packet.as_ref().len(), MTU - 2);
    let bytes = packet.into_vec();
    assert_eq!(bytes.len(), MTU);
    assert_eq!(&bytes[..3], &[0xacu8, 0x02, 0]);
    assert!(bytes[2..].iter().all(|b| *b == 0));
}

#[test]
fn packet_data_size_can_be_set() {
    let mut packet = Packet::new(5, Vec::new());
    packet.set_data_size(3);
    assert_eq!(packet.as_ref(), &[0u8, 0, 0]);
    packet.fill(&[7, 8]);
    assert_eq!(packet.as_ref(), &[7u8, 8]);
    packet.set_data_size(4);
    assert_eq!(packet.into_vec(), vec![5u8, 7, 8, 0, 0]);
}

#[test]
fn packet_decode_reads_the_id() {
    let packet = Packet::decode(vec![0xac, 0x02, 9, 8, 7]).unwrap();
    assert_eq!(packet.id(), 300);
    assert_eq!(packet.id_field_size(), 2);
    assert_eq!(packet.as_ref(), &[9u8, 8, 7]);
}

#[test]
fn packet_decode_says_what_is_wrong() {
    assert_eq!(Packet::decode(Vec::new()).err(), Some(VarintError::Truncated));
    assert_eq!(Packet::decode(vec![0x80]).err(), Some(VarintError::Truncated));
    let overflow: Vec<u8> = vec![0xff, 0xff, 0xff, 0xff, 0xff, 0xff, 0xff, 0xff, 0xff, 0x02];
    assert_eq!(Packet::decode(overflow).err(), Some(VarintError::Overflow));
}

#[test]
fn data_since_adds_up_the_packets() {
    assert_eq!(ChunkInfo::new(5).data_since(5), 0);
    assert_eq!(ChunkInfo::new(5).data_since(9), 0);
    assert_eq!(ChunkInfo::new(3).data_since(0), 3 * 1459);
    assert_eq!(ChunkInfo::new(130).data_since(126), 2 * 1459 + 2 * 1458);
}

#[test]
fn id_until_finds_the_packet_of_a_byte() {
    let first = ChunkInfo::new(0);
    assert_eq!(first.id_until(0), Some(0));
    assert_eq!(first.id_until(1458), Some(0));
    assert_eq!(first.id_until(1459), Some(1));
    assert_eq!(first.id_until(2 * 1459 - 1), Some(1));
    let later = ChunkInfo::new(127);
    assert_eq!(later.id_until(1458), Some(127));
    assert_eq!(later.id_until(1459), Some(128));
    assert_eq!(later.id_until(1459 + 1457), Some(128));
    assert_eq!(later.id_until(1459 + 1458), Some(129));
    assert_eq!(ChunkInfo::new(u64::MAX).id_until(1449), Some(u64::MAX));
    assert_eq!(ChunkInfo::new(u64::MAX).id_until(1450), None);
}
