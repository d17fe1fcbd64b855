use scsync::blockdb::{Block, BlockDb, BlockId, BlockRef, Full, Hint, Partial, StoreError, CHUNK_SIZE};

fn unhex(text: &str) -> BlockId {
    let mut id: BlockId = [0u8; 32];
    for i in 0..32usize {
        id[i] = u8::from_str_radix(&text[2 * i..2 * i + 2], 16).unwrap();
    }
    id
}

fn root_ref(tag: u8) -> BlockRef {
    BlockRef::new([tag; 32], [tag; 16], Vec::new())
}

fn empty_db() -> BlockDb {
    BlockDb::new(root_ref(0), Vec::new())
}

#[test]
fn full_block_has_the_digest_of_its_bytes_as_id() {
    let empty = Full::new(Vec::new());
    assert_eq!(
        empty.id(),
        unhex("c5d2460186f7233c927e7db2dcc703c0e500b653ca82273b7bfad8045d85a470")
    );
    let abc = Full::new(b"abc".to_vec());
    assert_eq!(
        abc.id(),
        unhex("4e03657aea45a94fc7d47ba826c8d667c0d1e6e33a64a036ec44f58fa12d6c45")
    );
    assert_eq!(abc.data(), &b"abc".to_vec());
}

#[test]
fn full_block_from_parts_checks_the_digest() {
    let id = unhex("4e03657aea45a94fc7d47ba826c8d667c0d1e6e33a64a036ec44f58fa12d6c45");
    let full = Full::from_parts(id, b"abc".to_vec()).unwrap();
    assert_eq!(full.id(), id);
    assert_eq!(Full::from_parts(id, b"abd".to_vec()).err(), Some(StoreError::DigestMismatch));
    assert_eq!(Full::from_parts(*b"abcabcabcabcabcabcabcabcabcabcab", b"abcabcabcabcabcabcabcabcabcabcab".to_vec()).err(), Some(StoreError::DigestMismatch));
}

#[test]
fn partial_block_has_a_bit_for_each_chunk() {
    assert_eq!(Partial::new([1; 32], 0).available().len(), 0);
    assert_eq!(Partial::new([1; 32], 1).available().len(), 1);
    assert_eq!(Partial::new([1; 32], CHUNK_SIZE).available().len(), 1);
    assert_eq!(Partial::new([1; 32], CHUNK_SIZE + 1).available().len(), 2);
    let partial = Partial::new([1; 32], 10 * CHUNK_SIZE + 5);
    assert_eq!(partial.available(), &vec![false; 11]);
    assert_eq!(partial.data().len(), 10 * CHUNK_SIZE + 5);
    assert_eq!(partial.id(), [1u8; 32]);
    assert!(!partial.is_complete());
}

#[test]
fn last_chunk_is_as_long_as_what_is_left() {
    let mut partial = Partial::new([1; 32], CHUNK_SIZE + 5);
    assert!(partial.accepts_chunk(1, 5));
    assert!(!partial.accepts_chunk(1, 4));
    assert!(!partial.accepts_chunk(0, CHUNK_SIZE - 1));
    assert!(!partial.accepts_chunk(2, CHUNK_SIZE));
    assert_eq!(partial.write_chunk(1, &[1, 2, 3, 4, 5]), Ok(()));
    assert_eq!(&partial.data()[CHUNK_SIZE..], &[1u8, 2, 3, 4, 5]);
    assert_eq!(partial.available(), &vec![false, true]);
    assert_eq!(partial.write_chunk(0, &vec![9u8; CHUNK_SIZE]), Ok(()));
    assert!(partial.is_complete());
    assert_eq!(&partial.data()[..2], &[9u8, 9]);
    assert_eq!(&partial.data()[CHUNK_SIZE..], &[1u8, 2, 3, 4, 5]);
}

#[test]
fn chunk_that_is_too_long_is_cut_to_its_place() {
    let mut partial = Partial::new([1; 32], CHUNK_SIZE + 2);
    assert_eq!(partial.write_chunk(1, &[7, 8, 9, 10]), Ok(()));
    assert_eq!(&partial.data()[CHUNK_SIZE..], &[7u8, 8]);
    assert_eq!(partial.write_chunk(0, &vec![3u8; CHUNK_SIZE + 1]), Ok(()));
    assert_eq!(&partial.data()[CHUNK_SIZE..], &[7u8, 8]);
}

#[test]
fn chunk_outside_the_block_is_refused() {
    let mut partial = Partial::new([1; 32], 10);
    assert_eq!(partial.write_chunk(1, &[0; 10]), Err(StoreError::BadChunk));
    assert_eq!(partial.write_chunk(0, &[0; 9]), Err(StoreError::BadChunk));
    assert_eq!(partial.write_chunk(u64::MAX, &[0; 10]), Err(StoreError::BadChunk));
    assert_eq!(partial.available(), &vec![false]);
    assert_eq!(partial.data(), &vec![0u8; 10]);
}

#[test]
fn block_says_what_it_is() {
    let full = Block::Full(Full::new(b"abc".to_vec()));
    assert_eq!(full.len(), 3);
    assert_eq!(full.full().data(), &b"abc".to_vec());
    assert_eq!(full.id(), full.full().id());
    let mut partial = Block::Partial(Partial::new([4; 32], 7));
    assert_eq!(partial.len(), 7);
    assert_eq!(partial.id(), [4u8; 32]);
    assert_eq!(partial.partial().available().len(), 1);
    partial.partial_mut().write_chunk(0, &[1; 7]).unwrap();
    assert!(partial.partial().is_complete());
}

#[test]
fn add_keeps_the_first_block_under_an_id() {
    let mut db = empty_db();
    let id: BlockId = [5; 32];
    assert!(!db.contains(id));
    db.add(Block::Partial(Partial::new(id, 3)));
    assert!(db.contains(id));
    db.get_mut(id).partial_mut().write_chunk(0, &[1, 2, 3]).unwrap();
    db.add(Block::Partial(Partial::new(id, 8)));
    assert_eq!(db.block_count(), 1);
    assert_eq!(db.get(id).len(), 3);
    assert_eq!(db.get(id).partial().available(), &vec![true]);
}

#[test]
fn add_does_not_replace_a_full_block() {
    let mut db = empty_db();
    let full = Full::new(b"abc".to_vec());
    let id = full.id();
    db.add(Block::Full(full));
    db.add(Block::Partial(Partial::new(id, 3)));
    assert!(matches!(db.get(id), Block::Full(_)));
    assert_eq!(db.try_promote(id), Ok(false));
    assert!(matches!(db.get(id), Block::Full(_)));
}

#[test]
fn new_store_keeps_the_first_of_two_blocks() {
    let id: BlockId = [5; 32];
    let db = BlockDb::new(
        root_ref(1),
        vec![
            Block::Partial(Partial::new(id, 3)),
            Block::Partial(Partial::new([6; 32], 1)),
            Block::Partial(Partial::new(id, 9)),
        ],
    );
    assert_eq!(db.block_count(), 2);
    assert_eq!(db.get(id).len(), 3);
    assert_eq!(db.root().blockid, [1u8; 32]);
    assert!(db.pending_root().is_none());
}

#[test]
fn promotion_waits_for_every_chunk() {
    let data: Vec<u8> = (0..CHUNK_SIZE + 5).map(|i| (i % 251) as u8).collect();
    let id = Full::new(data.clone()).id();
    let mut db = empty_db();
    db.add(Block::Partial(Partial::new(id, data.len())));
    assert_eq!(db.try_promote(id), Ok(false));
    db.get_mut(id).partial_mut().write_chunk(1, &data[CHUNK_SIZE..]).unwrap();
    assert_eq!(db.try_promote(id), Ok(false));
    assert!(matches!(db.get(id), Block::Partial(_)));
    db.get_mut(id).partial_mut().write_chunk(0, &data[..CHUNK_SIZE]).unwrap();
    assert_eq!(db.try_promote(id), Ok(true));
    assert_eq!(db.get(id).full().data(), &data);
    assert_eq!(db.get(id).full().id(), id);
    assert_eq!(db.try_promote(id), Ok(false));
}

#[test]
fn promotion_of_wrong_bytes_takes_the_block_out() {
    let id = Full::new(b"right".to_vec()).id();
    let mut db = empty_db();
    db.add(Block::Partial(Partial::new([9; 32], 2)));
    db.add(Block::Partial(Partial::new(id, 5)));
    db.get_mut(id).partial_mut().write_chunk(0, b"wrong").unwrap();
    assert_eq!(db.try_promote(id), Err(StoreError::DigestMismatch));
    assert!(!db.contains(id));
    assert!(db.contains([9; 32]));
    assert_eq!(db.block_count(), 1);
}

#[test]
fn promotion_of_an_unknown_block_does_nothing() {
    let mut db = empty_db();
    assert_eq!(db.try_promote([3; 32]), Ok(false));
    assert_eq!(db.block_count(), 0);
}

#[test]
fn block_without_bytes_is_full_at_once() {
    let id = Full::new(Vec::new()).id();
    let mut db = empty_db();
    db.add(Block::Partial(Partial::new(id, 0)));
    assert!(db.get(id).partial().is_complete());
    assert_eq!(db.try_promote(id), Ok(true));
    assert_eq!(db.get(id).len(), 0);
    assert!(matches!(db.get(id), Block::Full(_)));
}

#[test]
fn only_one_root_is_pending() {
    let mut db = BlockDb::new(root_ref(1), Vec::new());
    assert_eq!(db.set_pending_root(root_ref(2)), Ok(()));
    assert_eq!(db.set_pending_root(root_ref(3)), Err(StoreError::PendingBusy));
    assert_eq!(db.pending_root().unwrap().blockid, [2u8; 32]);
    assert_eq!(db.root().blockid, [1u8; 32]);
}

#[test]
fn apply_pending_gives_the_old_root_back() {
    let mut db = BlockDb::new(root_ref(1), Vec::new());
    db.set_pending_root(root_ref(2)).unwrap();
    let old = db.apply_pending();
    assert_eq!(old.blockid, [1u8; 32]);
    assert_eq!(db.root().blockid, [2u8; 32]);
    assert_eq!(db.root().key, [2u8; 16]);
    assert!(db.pending_root().is_none());
    assert_eq!(db.set_pending_root(root_ref(3)), Ok(()));
}

#[test]
fn duplicate_is_a_deep_copy() {
    let inner = BlockRef::new([1; 32], [2; 16], Vec::new());
    let outer = BlockRef::new(
        [3; 32],
        [4; 16],
        vec![Hint { blockref: inner, offset: 5, length: 6 }],
    );
    let copy = outer.duplicate();
    assert_eq!(copy.blockid, [3u8; 32]);
    assert_eq!(copy.key, [4u8; 16]);
    assert_eq!(copy.hints.len(), 1);
    assert_eq!(copy.hints[0].offset, 5);
    assert_eq!(copy.hints[0].length, 6);
    assert_eq!(copy.hints[0].blockref.blockid, [1u8; 32]);
    assert_eq!(copy.hints[0].blockref.key, [2u8; 16]);
    assert!(copy.hints[0].blockref.hints.is_empty());
}
