use scsync::codec::{Chunk, MissingRange, MissingRanges};
use scsync::receiver::{client_folder, ChunkAction, Receiver, State};

fn chunk(index: u64) -> Chunk {
    Chunk::new(Vec::new(), index, 1, 4)
}

fn receive(receiver: &mut Receiver, index: u64) -> bool {
    match receiver.chunk(chunk(index)) {
        ChunkAction::Write { offset, chunk } => {
            assert_eq!(offset, index * 1459);
            assert_eq!(chunk.index, index);
            assert_eq!(receiver.state(), State::WritingChunk(index));
            receiver.written()
        }
        _ => panic!("chunk is not written"),
    }
}

fn missing(receiver: &Receiver) -> Vec<MissingRange> {
    let (status, _) = receiver.status();
    let mut ranges = MissingRanges::default();
    ranges.parse_status_update(&status);
    ranges.missing()
}

#[test]
fn folder_is_named_by_the_digest_of_the_token() {
    assert_eq!(
        client_folder(b"roflcopter"),
        "55e98a1e553dbc084b0a24bc8b36e2184ad71f006c9eedca529ce5cc56478ed6"
    );
    assert_eq!(
        client_folder(b""),
        "e3b0c44298fc1c149afbf4c8996fb92427ae41e4649b934ca495991b7852b855"
    );
}

#[test]
fn receiver_waits_for_the_request_first() {
    let mut receiver = Receiver::new();
    assert_eq!(receiver.state(), State::WaitForAckAndCommand);
    assert!(matches!(receiver.chunk(chunk(0)), ChunkAction::Ignore(_)));
    assert!(!receiver.written());
    assert!(receiver.upload_request(3 * 1459 - 1, None));
    assert_eq!(receiver.state(), State::WaitForChunk);
    assert_eq!(receiver.chunk_info().num_chunks, 3);
    assert_eq!(receiver.bitmap_bytes(), &vec![0u8]);
    assert_eq!(missing(&receiver), vec![MissingRange(0, 3)]);
}

#[test]
fn chunks_arrive_in_any_order() {
    let mut receiver = Receiver::new();
    receiver.upload_request(5 * 1459 - 1, None);
    assert!(receive(&mut receiver, 3));
    assert!(!receive(&mut receiver, 0));
    assert_eq!(missing(&receiver), vec![MissingRange(1, 3), MissingRange(4, 5)]);
    assert!(matches!(receiver.chunk(chunk(3)), ChunkAction::Skip(_)));
    assert_eq!(receiver.state(), State::WaitForChunk);
    assert!(matches!(receiver.chunk(chunk(6)), ChunkAction::Ignore(_)));
    assert!(receive(&mut receiver, 4));
    assert!(receive(&mut receiver, 1));
    assert!(receive(&mut receiver, 2));
    let (status, complete) = receiver.status();
    assert_eq!(status, vec![5u8]);
    assert!(complete);
}

#[test]
fn status_is_due_when_a_power_of_two_is_missing() {
    let mut receiver = Receiver::new();
    receiver.upload_request(9 * 1459 - 1, None);
    let due: Vec<bool> = (0..9u64).map(|i| receive(&mut receiver, i)).collect();
    assert_eq!(due, vec![true, false, false, false, true, false, true, true, true]);
}

#[test]
fn final_chunk_ends_the_upload() {
    let mut receiver = Receiver::new();
    receiver.upload_request(2 * 1459 - 1, None);
    receive(&mut receiver, 0);
    match receiver.chunk(chunk(2)) {
        ChunkAction::Finish { complete, .. } => assert!(!complete),
        _ => panic!("upload does not end"),
    }
    assert_eq!(receiver.state(), State::Shutdown);
    assert!(matches!(receiver.chunk(chunk(1)), ChunkAction::Ignore(_)));

    let mut other = Receiver::new();
    other.upload_request(2 * 1459 - 1, None);
    receive(&mut other, 1);
    receive(&mut other, 0);
    match other.chunk(chunk(2)) {
        ChunkAction::Finish { complete, .. } => assert!(complete),
        _ => panic!("upload does not end"),
    }
}

#[test]
fn upload_goes_on_from_the_stored_bit_map() {
    let mut first = Receiver::new();
    first.upload_request(12 * 1459 - 1, None);
    for index in [0u64, 1, 2, 5, 6, 11] {
        receive(&mut first, index);
    }
    let stored: Vec<u8> = first.bitmap_bytes().clone();
    assert_eq!(stored, vec![0b0110_0111u8, 0b0000_1000]);

    let mut second = Receiver::new();
    assert!(second.upload_request(12 * 1459 - 1, Some(stored)));
    assert_eq!(
        missing(&second),
        vec![MissingRange(3, 5), MissingRange(7, 11)]
    );
    assert!(matches!(second.chunk(chunk(5)), ChunkAction::Skip(_)));
    assert!(!receive(&mut second, 3));
    assert!(receive(&mut second, 4));
}

#[test]
fn stored_bit_map_that_is_full_or_too_short_starts_anew() {
    let mut full = Receiver::new();
    full.upload_request(3 * 1459 - 1, Some(vec![0b0000_0111]));
    assert_eq!(missing(&full), vec![MissingRange(0, 3)]);
    let mut short = Receiver::new();
    short.upload_request(9 * 1459 - 1, Some(vec![0b0000_0001]));
    assert_eq!(missing(&short), vec![MissingRange(0, 9)]);
    let mut long = Receiver::new();
    long.upload_request(3 * 1459 - 1, Some(vec![0b1111_1010, 0xff]));
    assert_eq!(missing(&long), vec![MissingRange(0, 1), MissingRange(2, 3)]);
}
