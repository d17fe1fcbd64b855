use scsync::bitmap::BitMap;
use scsync::codec::{
    index_field_size, write_runlength_encoded, Chunk, Command, DecodeError, Login, MissingRange,
    MissingRanges, RunlengthIter, UploadRequest, MTU,
};

fn test_rle_enc(bitmap: &[u8], result: &[u8]) {
    let mut enc: Vec<u8> = Vec::new();
    let bitmap = BitMap::new(bitmap.to_vec());
    let written: usize = write_runlength_encoded(&bitmap, &mut enc, usize::MAX);
    assert_eq!(enc, result);
    assert_eq!(written, result.len());
}

#[test]
fn test_runlength_encode() {
    test_rle_enc(&[0b1111_1111], &[8]);
    test_rle_enc(&[0b0000_0000], &[0, 8]);
    test_rle_enc(&[0b0000_0001], &[1, 7]);
    test_rle_enc(&[0b1000_0000], &[0, 7, 1]);
    test_rle_enc(&[0b0000_1011], &[2, 1, 1, 4]);
    test_rle_enc(&[0b1000_1011], &[2, 1, 1, 3, 1]);
    test_rle_enc(&[0b1000_1011, 0b0000_1111], &[2, 1, 1, 3, 5, 4]);
}

#[test]
fn test_runlength_decode() {
    let vector: &[(&[u8], &[u64])] = &[
        (&[], &[]),
        (&[0], &[0]),
        (&[1, 2, 3], &[1, 2, 3]),
        (&[1, 0x80, 1, 2], &[1, 0x80, 2]),
        (&[1, 0xff, 0xff, 0xff, 0xff, 0xff, 0xff, 0xff, 0xff, 0xff, 0x01, 2], &[1, 0xffffffff_ffffffff, 2]),
        (&[1, 0x80, 0x80, 0x80, 0x80, 0x80, 0x80, 0x80, 0x80, 0x40, 2], &[1, 0x40000000_00000000, 2]),
    ];

    for &(message, numbers) in vector {
        let mut iter = RunlengthIter::new(message.to_vec());
        let mut decoded: Vec<u64> = Vec::new();
        while let Some(x) = iter.next() {
            decoded.push(x);
        }
        assert_eq!(decoded, numbers);
    }
}

#[test]
fn test_missing_ranges() {
    let mut mr = MissingRanges::default();
    mr.parse_status_update(&[2, 2, 3, 4]);
    // index:  0123456789a
    // bitmap: 11001110000
    // missing:  --   ----
    //          2,4   7,11
    assert_eq!(mr.missing().as_slice(), [MissingRange(2, 4), MissingRange(7, 11)]);
    assert_eq!(mr.advance_cursor(0), Some(2));
    assert_eq!(mr.advance_cursor(1), Some(2));
    assert_eq!(mr.advance_cursor(2), Some(3));
    assert_eq!(mr.advance_cursor(3), Some(7));
    assert_eq!(mr.advance_cursor(6), Some(7));
    assert_eq!(mr.advance_cursor(7), Some(8));
    assert_eq!(mr.advance_cursor(8), Some(9));
    assert_eq!(mr.advance_cursor(9), Some(10));
    assert_eq!(mr.advance_cursor(10), None);
    assert_eq!(mr.advance_cursor(11), None);
}

#[test]
fn runlength_encoding_is_cut_before_what_does_not_fit() {
    let bitmap = BitMap::new(vec![0b1000_1011u8, 0b0000_1111]);
    let mut enc: Vec<u8> = Vec::new();
    let written: usize = write_runlength_encoded(&bitmap, &mut enc, 4);
    assert_eq!(enc, vec![2u8, 1, 1, 3]);
    assert_eq!(written, 4);
    let mut none: Vec<u8> = vec![7u8];
    assert_eq!(write_runlength_encoded(&bitmap, &mut none, 0), 0);
    assert_eq!(none, vec![7u8]);
}

#[test]
fn runlength_encoding_of_long_runs_takes_more_bytes() {
    let bitmap = BitMap::with_length(vec![0xffu8; 40], 300);
    let mut enc: Vec<u8> = Vec::new();
    assert_eq!(write_runlength_encoded(&bitmap, &mut enc, 1), 0);
    assert_eq!(write_runlength_encoded(&bitmap, &mut enc, 2), 2);
    assert_eq!(enc, vec![0xacu8, 0x02]);
}

#[test]
fn status_comes_back_as_the_bits_that_were_sent() {
    let bytes: Vec<u8> = vec![0b1000_1011, 0b0000_1111, 0b0101_0000];
    let bitmap = BitMap::new(bytes.clone());
    let mut enc: Vec<u8> = Vec::new();
    write_runlength_encoded(&bitmap, &mut enc, usize::MAX);
    let mut mr = MissingRanges::default();
    let complete: bool = mr.parse_status_update(&enc);
    assert!(!complete);
    let ranges = mr.missing();
    for i in 0..24u64 {
        let missing: bool = ranges.iter().any(|r| r.0 <= i && i < r.1);
        assert_eq!(missing, !bitmap.get(i));
    }
}

#[test]
fn status_of_a_full_map_says_nothing_is_missing() {
    let mut mr = MissingRanges::default();
    assert!(mr.parse_status_update(&[8]));
    assert_eq!(mr.missing(), Vec::new());
    assert_eq!(mr.next_chunk(), None);
}

#[test]
fn status_ends_where_an_id_would_pass_the_largest() {
    let mut update: Vec<u8> = vec![1, 2];
    update.extend_from_slice(&[0xff, 0xff, 0xff, 0xff, 0xff, 0xff, 0xff, 0xff, 0xff, 0x01, 1]);
    let mut mr = MissingRanges::default();
    mr.parse_status_update(&update);
    assert_eq!(mr.missing(), vec![MissingRange(1, 3)]);
}

#[test]
fn next_chunk_walks_the_missing_ids() {
    let mut mr = MissingRanges::default();
    mr.parse_status_update(&[2, 2, 3, 1]);
    assert_eq!(mr.next_chunk(), Some(2));
    assert_eq!(mr.next_chunk(), Some(3));
    assert_eq!(mr.next_chunk(), Some(7));
    assert_eq!(mr.next_chunk(), None);
    assert_eq!(mr.next_chunk(), None);
}

#[test]
fn empty_ranges_name_no_chunk() {
    let mut mr = MissingRanges::default();
    mr.parse_status_update(&[2, 0, 3, 2]);
    assert_eq!(mr.missing(), vec![MissingRange(2, 2), MissingRange(5, 7)]);
    assert_eq!(mr.advance_cursor(0), Some(5));
    assert_eq!(mr.next_chunk(), Some(5));
}

#[test]
fn advance_cursor_at_the_largest_id_finds_nothing() {
    let mut mr = MissingRanges::default();
    mr.parse_status_update(&[0, 5]);
    assert_eq!(mr.advance_cursor(u64::MAX), None);
}

#[test]
fn login_is_written_field_by_field() {
    let login = Login {
        client_token: b"roflcopter",
        command: Command::UploadRequest(UploadRequest { path: "a/b", length: 300 }),
    };
    let mut out: Vec<u8> = Vec::new();
    login.encode(&mut out);
    let mut expected: Vec<u8> = vec![10];
    expected.extend_from_slice(b"roflcopter");
    expected.extend_from_slice(&[0, 3]);
    expected.extend_from_slice(b"a/b");
    expected.extend_from_slice(&[0xac, 0x02]);
    assert_eq!(out, expected);
}

#[test]
fn login_comes_back() {
    let login = Login {
        client_token: &[1, 2, 3, 0xff],
        command: Command::UploadRequest(UploadRequest { path: "dir/\u{fc}ber.txt", length: u64::MAX }),
    };
    let mut out: Vec<u8> = Vec::new();
    login.encode(&mut out);
    let back = Login::decode(&out).unwrap();
    assert_eq!(back.client_token, &[1u8, 2, 3, 0xff]);
    let Command::UploadRequest(req) = back.command;
    assert_eq!(req.path, "dir/\u{fc}ber.txt");
    assert_eq!(req.length, u64::MAX);
}

#[test]
fn command_encode_counts_its_bytes() {
    let command = Command::UploadRequest(UploadRequest { path: "xy", length: 1 });
    let mut out: Vec<u8> = vec![0xee];
    let written: usize = command.encode(&mut out);
    assert_eq!(out, vec![0xeeu8, 0, 2, b'x', b'y', 1]);
    assert_eq!(written, 5);
    let Command::UploadRequest(req) = command;
    let mut alone: Vec<u8> = Vec::new();
    assert_eq!(req.encode(&mut alone), 4);
}

#[test]
fn login_decode_says_what_is_wrong() {
    assert_eq!(Login::decode(&[]).err(), Some(DecodeError::Truncated));
    assert_eq!(Login::decode(&[3, 1, 2]).err(), Some(DecodeError::Truncated));
    assert_eq!(Login::decode(&[1, 7]).err(), Some(DecodeError::Truncated));
    assert_eq!(Login::decode(&[1, 7, 9, 0]).err(), Some(DecodeError::UnknownCommand(9)));
    assert_eq!(Login::decode(&[1, 7, 0, 2, 0xc3, 0x28, 1]).err(), Some(DecodeError::InvalidUtf8));
    assert_eq!(Login::decode(&[1, 7, 0, 1, b'a']).err(), Some(DecodeError::Truncated));
    let overflow: Vec<u8> = vec![0xff, 0xff, 0xff, 0xff, 0xff, 0xff, 0xff, 0xff, 0xff, 0x7f];
    assert_eq!(Login::decode(&overflow).err(), Some(DecodeError::Overflow));
}

#[test]
fn command_decode_gives_the_position_behind() {
    let bytes: Vec<u8> = vec![0xaa, 0, 1, b'p', 5, 0xbb];
    let (command, end) = Command::decode(&bytes, 1).unwrap();
    assert_eq!(end, 5);
    let Command::UploadRequest(req) = command;
    assert_eq!(req.path, "p");
    assert_eq!(req.length, 5);
    let (again, stop) = UploadRequest::decode(&bytes, 2).unwrap();
    assert_eq!(stop, 5);
    assert_eq!(again.path, "p");
}

#[test]
fn chunk_starts_with_its_index_least_significant_byte_first() {
    let chunk = Chunk::new(vec![9u8; 3], 0x0102_0304, 4, 3);
    assert_eq!(chunk.index, 0x0102_0304);
    assert_eq!(chunk.as_ref(), &[0u8, 0, 0]);
    assert_eq!(chunk.into_vec(), vec![4u8, 3, 2, 1, 0, 0, 0]);
}

#[test]
fn chunk_with_a_narrow_field_keeps_the_low_bytes() {
    let chunk = Chunk::new(Vec::new(), 0x0a0b, 1, 0);
    assert_eq!(chunk.into_vec(), vec![0x0bu8]);
    let two = Chunk::new(Vec::new(), 0x0a0b, 2, 1);
    assert_eq!(two.into_vec(), vec![0x0bu8, 0x0a, 0]);
}

#[test]
fn chunk_decode_reads_the_index_field() {
    let chunk = Chunk::decode(vec![4u8, 3, 2, 1, 0xaa, 0xbb], 4);
    assert_eq!(chunk.index, 0x0102_0304);
    assert_eq!(chunk.as_ref(), &[0xaau8, 0xbb]);
    let narrow = Chunk::decode(vec![0xffu8, 0xee], 1);
    assert_eq!(narrow.index, 0xff);
    let wide = Chunk::decode(vec![1u8, 0, 0, 0, 0, 0, 0, 0x80], 8);
    assert_eq!(wide.index, 0x8000_0000_0000_0001);
}

#[test]
fn chunk_fill_replaces_the_data() {
    let mut chunk = Chunk::new(Vec::new(), 7, 2, 3);
    chunk.fill(&[1, 2, 3]);
    assert_eq!(chunk.into_vec(), vec![7u8, 0, 1, 2, 3]);
}

#[test]
fn index_field_grows_with_the_file() {
    let small = index_field_size(0);
    assert_eq!(small.index_field_size, 1);
    assert_eq!(small.chunk_size, 1459);
    assert_eq!(small.num_chunks, 1);
    assert_eq!(small.last_chunk_size, 1);

    let edge = index_field_size(256 * 1459 - 1);
    assert_eq!(edge.index_field_size, 1);
    assert_eq!(edge.num_chunks, 256);
    assert_eq!(edge.last_chunk_size, 0);

    let next = index_field_size(256 * 1459);
    assert_eq!(next.index_field_size, 2);
    assert_eq!(next.chunk_size, 1458);
    assert_eq!(next.num_chunks, 257);
    assert_eq!(next.last_chunk_size, (256 * 1459 + 1) % 1458);

    let huge = index_field_size(u64::MAX - 1);
    assert_eq!(huge.index_field_size, 7);
    assert_eq!(huge.chunk_size, MTU as u64 - 7);
    assert_eq!(huge.num_chunks, u64::MAX / 1453 + 1);
}
