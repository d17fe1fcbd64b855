use scsync::blockdb::{Block, BlockDb, BlockId, BlockRef, Full, Key, Partial};
use scsync::frontend::{
    resolve, to_block, traverse, verify, BlockType, Builder, Catalog, Child, Decoded, Dir, Frontend,
    FsOp, Leaf, Meta, PlanVisitor, ResolveBlockVisitor, TreeError, VerifyVisitor,
};

fn sealed_leaf(data: &[u8]) -> Vec<u8> {
    let mut out: Vec<u8> = vec![3u8];
    out.extend(data.iter().map(|b| b ^ 0x5a));
    out
}

fn sealed_dir(dir: &Dir) -> Vec<u8> {
    let mut out: Vec<u8> = vec![1u8];
    for child in &dir.children {
        out.extend_from_slice(child.name.as_bytes());
        out.push(0);
        out.push(child._type.tag());
        out.extend_from_slice(&child.blockref.blockid);
    }
    out
}

fn path(parts: &[&str]) -> Vec<String> {
    parts.iter().map(|p| p.to_string()).collect()
}

fn id_of(sealed: &[u8]) -> BlockId {
    Full::new(sealed.to_vec()).id()
}

/// top/
///   a.txt   "alpha"
///   sub/
///     b.bin [1, 2, 3]
///   z.txt   ""
fn sample() -> (BlockDb, Catalog) {
    let mut builder = Builder::new();
    builder.add_file(&path(&["top"]), "a.txt".to_string(), [1; 16], sealed_leaf(b"alpha"), b"alpha".to_vec());
    builder.add_file(
        &path(&["top", "sub"]),
        "b.bin".to_string(),
        [2; 16],
        sealed_leaf(&[1, 2, 3]),
        vec![1, 2, 3],
    );
    let sub = builder.take_dir(&path(&["top", "sub"]));
    let sub_sealed = sealed_dir(&sub);
    builder.add_dir(Some(&path(&["top"])), "sub".to_string(), [3; 16], sub_sealed, sub);
    builder.add_file(&path(&["top"]), "z.txt".to_string(), [4; 16], sealed_leaf(b""), Vec::new());
    let top = builder.take_dir(&path(&["top"]));
    let top_sealed = sealed_dir(&top);
    builder.add_dir(None, "top".to_string(), [5; 16], top_sealed, top);
    builder.finish().unwrap()
}

fn expected_plan() -> Vec<FsOp> {
    vec![
        FsOp::WriteFile(path(&["a.txt"]), b"alpha".to_vec()),
        FsOp::CreateDir(path(&["sub"])),
        FsOp::WriteFile(path(&["sub", "b.bin"]), vec![1, 2, 3]),
        FsOp::WriteFile(path(&["z.txt"]), Vec::new()),
    ]
}

#[test]
fn block_types_have_their_tags() {
    assert_eq!(BlockType::Directory.tag(), 1);
    assert_eq!(BlockType::FileMeta.tag(), 2);
    assert_eq!(BlockType::Leaf.tag(), 3);
    assert_eq!(BlockType::from_tag(1), Some(BlockType::Directory));
    assert_eq!(BlockType::from_tag(2), Some(BlockType::FileMeta));
    assert_eq!(BlockType::from_tag(3), Some(BlockType::Leaf));
    assert_eq!(BlockType::from_tag(0), None);
    assert_eq!(BlockType::from_tag(4), None);
}

#[test]
fn to_block_gives_a_full_block_under_its_digest() {
    let (key, block) = to_block([7; 16], b"abc".to_vec());
    assert_eq!(key, [7u8; 16]);
    assert_eq!(block.full().data(), &b"abc".to_vec());
    assert_eq!(block.id(), id_of(b"abc"));
}

#[test]
fn builder_collects_entries_per_directory() {
    let mut builder = Builder::new();
    builder.add_file(&path(&["x"]), "one".to_string(), [1; 16], vec![1], vec![10]);
    builder.add_file(&path(&["y"]), "two".to_string(), [2; 16], vec![2], vec![20]);
    builder.add_file(&path(&["x"]), "three".to_string(), [3; 16], vec![3], vec![30]);
    let x = builder.take_dir(&path(&["x"]));
    let names: Vec<&str> = x.children.iter().map(|c| c.name.as_str()).collect();
    assert_eq!(names, vec!["one", "three"]);
    assert_eq!(x.children[0]._type, BlockType::Leaf);
    assert_eq!(x.children[0].blockref.blockid, id_of(&[1]));
    assert_eq!(x.children[0].blockref.key, [1u8; 16]);
    assert!(x.children[0].blockref.hints.is_empty());
    assert!(builder.take_dir(&path(&["x"])).children.is_empty());
    assert!(builder.take_dir(&path(&["unknown"])).children.is_empty());
    assert_eq!(builder.take_dir(&path(&["y"])).children.len(), 1);
}

#[test]
fn builder_without_a_top_directory_gives_nothing() {
    let mut builder = Builder::new();
    builder.add_file(&path(&["x"]), "one".to_string(), [1; 16], vec![1], vec![10]);
    assert!(builder.finish().is_none());
}

#[test]
fn builder_makes_the_top_directory_the_root() {
    let (db, catalog) = sample();
    assert_eq!(db.block_count(), 5);
    assert!(db.pending_root().is_none());
    assert_eq!(db.root().key, [5u8; 16]);
    let root = db.root().blockid;
    assert!(matches!(db.get(root), Block::Full(_)));
    match catalog.get(&root) {
        Some(Decoded::Dir(dir)) => {
            let names: Vec<&str> = dir.children.iter().map(|c| c.name.as_str()).collect();
            assert_eq!(names, vec!["a.txt", "sub", "z.txt"]);
            assert_eq!(dir.children[1]._type, BlockType::Directory);
        }
        _ => panic!("no directory"),
    }
    assert_eq!(catalog.reference_to(&id_of(&sealed_leaf(b"alpha"))), Some(([1u8; 16], BlockType::Leaf)));
    assert_eq!(catalog.reference_to(&root), None);
}

#[test]
fn tree_that_is_all_there_verifies() {
    let (db, catalog) = sample();
    assert!(verify(&db, &catalog, false));
}

#[test]
fn tree_is_written_out_in_the_order_of_the_walk() {
    let (db, catalog) = sample();
    let frontend = Frontend::from_blockdb(&db, &catalog);
    assert_eq!(frontend.write_to_dir(), Ok(expected_plan()));
    assert_eq!(frontend.plan(false), Ok(expected_plan()));
}

#[test]
fn empty_directory_is_written_out_in_no_steps() {
    let mut builder = Builder::new();
    let top = builder.take_dir(&path(&["top"]));
    builder.add_dir(None, "top".to_string(), [5; 16], vec![1], top);
    let (db, catalog) = builder.finish().unwrap();
    assert!(verify(&db, &catalog, false));
    assert_eq!(Frontend::from_blockdb(&db, &catalog).write_to_dir(), Ok(Vec::new()));
}

#[test]
fn resolve_finds_a_block_by_its_id() {
    let (db, catalog) = sample();
    let leaf = id_of(&sealed_leaf(&[1, 2, 3]));
    match resolve(&db, &catalog, leaf, false) {
        Some(Decoded::Leaf(l)) => assert_eq!(l.data, vec![1u8, 2, 3]),
        _ => panic!("no leaf"),
    }
    match resolve(&db, &catalog, db.root().blockid, false) {
        Some(Decoded::Dir(d)) => assert_eq!(d.children.len(), 3),
        _ => panic!("no directory"),
    }
    assert!(resolve(&db, &catalog, [0; 32], false).is_none());
}

fn with_missing_leaf() -> (BlockDb, Catalog, BlockId) {
    let mut builder = Builder::new();
    let gone: BlockId = [9; 32];
    let top = Dir {
        children: vec![Child {
            name: "gone".to_string(),
            metadata: (),
            _type: BlockType::Leaf,
            blockref: BlockRef::new(gone, [1; 16], Vec::new()),
        }],
    };
    let sealed = sealed_dir(&top);
    builder.add_dir(None, "top".to_string(), [5; 16], sealed, top);
    let (db, catalog) = builder.finish().unwrap();
    (db, catalog, gone)
}

#[test]
fn tree_with_a_missing_block_does_not_verify() {
    let (db, catalog, gone) = with_missing_leaf();
    assert!(!verify(&db, &catalog, false));
    assert_eq!(Frontend::from_blockdb(&db, &catalog).write_to_dir(), Err(TreeError::Missing));
    assert!(resolve(&db, &catalog, gone, false).is_none());
}

#[test]
fn tree_with_a_partial_block_does_not_verify() {
    let (mut db, catalog, gone) = with_missing_leaf();
    db.add(Block::Partial(Partial::new(gone, 4)));
    assert!(!verify(&db, &catalog, false));
    assert_eq!(Frontend::from_blockdb(&db, &catalog).write_to_dir(), Err(TreeError::Partial));
}

#[test]
fn block_without_known_content_does_not_verify() {
    let (mut db, mut catalog, _) = with_missing_leaf();
    let sealed = sealed_leaf(b"x");
    let id = id_of(&sealed);
    let top = Dir {
        children: vec![Child {
            name: "x".to_string(),
            metadata: (),
            _type: BlockType::Leaf,
            blockref: BlockRef::new(id, [1; 16], Vec::new()),
        }],
    };
    let top_sealed = vec![1u8, 2, 3];
    let top_id = id_of(&top_sealed);
    db.add(Block::Full(Full::new(top_sealed)));
    db.add(Block::Full(Full::new(sealed)));
    catalog.insert(top_id, Decoded::Dir(top));
    db.set_pending_root(BlockRef::new(top_id, [2; 16], Vec::new())).unwrap();
    assert!(!verify(&db, &catalog, true));
    assert_eq!(Frontend::from_blockdb(&db, &catalog).plan(true), Err(TreeError::Unreadable));
    catalog.insert(id, Decoded::Leaf(Leaf { data: b"x".to_vec() }));
    assert!(verify(&db, &catalog, true));
    assert_eq!(
        Frontend::from_blockdb(&db, &catalog).plan(true),
        Ok(vec![FsOp::WriteFile(path(&["x"]), b"x".to_vec())])
    );
}

#[test]
fn content_of_another_kind_is_unreadable() {
    let sealed = vec![1u8, 2, 3];
    let id = id_of(&sealed);
    let db = BlockDb::new(BlockRef::new(id, [1; 16], Vec::new()), vec![Block::Full(Full::new(sealed))]);
    let mut catalog = Catalog::new();
    catalog.insert(id, Decoded::Leaf(Leaf { data: Vec::new() }));
    assert!(!verify(&db, &catalog, false));
}

#[test]
fn directory_that_holds_itself_does_not_verify() {
    let sealed = vec![1u8, 2, 3];
    let id = id_of(&sealed);
    let db = BlockDb::new(BlockRef::new(id, [1; 16], Vec::new()), vec![Block::Full(Full::new(sealed))]);
    let mut catalog = Catalog::new();
    catalog.insert(
        id,
        Decoded::Dir(Dir {
            children: vec![Child {
                name: "again".to_string(),
                metadata: (),
                _type: BlockType::Directory,
                blockref: BlockRef::new(id, [1; 16], Vec::new()),
            }],
        }),
    );
    assert!(!verify(&db, &catalog, false));
    assert_eq!(Frontend::from_blockdb(&db, &catalog).write_to_dir(), Err(TreeError::Unreadable));
}

#[test]
fn file_list_is_the_bytes_of_its_leaves_in_order() {
    let one = sealed_leaf(b"one,");
    let two = sealed_leaf(b"two");
    let meta_sealed = vec![2u8, 0];
    let top_sealed = vec![1u8, 0];
    let (one_id, two_id, meta_id, top_id) = (id_of(&one), id_of(&two), id_of(&meta_sealed), id_of(&top_sealed));
    let key: Key = [0; 16];
    let db = BlockDb::new(
        BlockRef::new(top_id, key, Vec::new()),
        vec![
            Block::Full(Full::new(one)),
            Block::Full(Full::new(two)),
            Block::Full(Full::new(meta_sealed)),
            Block::Full(Full::new(top_sealed)),
        ],
    );
    let mut catalog = Catalog::new();
    catalog.insert(one_id, Decoded::Leaf(Leaf { data: b"one,".to_vec() }));
    catalog.insert(
        meta_id,
        Decoded::Meta(Meta {
            blocks: vec![
                BlockRef::new(one_id, key, Vec::new()),
                BlockRef::new(two_id, key, Vec::new()),
                BlockRef::new(one_id, key, Vec::new()),
            ],
        }),
    );
    catalog.insert(
        top_id,
        Decoded::Dir(Dir {
            children: vec![Child {
                name: "joined".to_string(),
                metadata: (),
                _type: BlockType::FileMeta,
                blockref: BlockRef::new(meta_id, key, Vec::new()),
            }],
        }),
    );
    assert_eq!(catalog.reference_to(&two_id), Some((key, BlockType::Leaf)));
    let frontend = Frontend::from_blockdb(&db, &catalog);
    assert_eq!(frontend.write_to_dir(), Err(TreeError::Unreadable));
    catalog.insert(two_id, Decoded::Leaf(Leaf { data: b"two".to_vec() }));
    let frontend = Frontend::from_blockdb(&db, &catalog);
    assert_eq!(
        frontend.write_to_dir(),
        Ok(vec![FsOp::WriteFile(path(&["joined"]), b"one,twoone,".to_vec())])
    );
}

#[test]
fn catalog_keeps_the_first_content_of_a_block() {
    let mut catalog = Catalog::new();
    assert!(catalog.get(&[1; 32]).is_none());
    catalog.insert([1; 32], Decoded::Leaf(Leaf { data: vec![1] }));
    catalog.insert([1; 32], Decoded::Leaf(Leaf { data: vec![2] }));
    match catalog.get(&[1; 32]) {
        Some(Decoded::Leaf(l)) => assert_eq!(l.data, vec![1u8]),
        _ => panic!("no leaf"),
    }
    assert_eq!(catalog.get(&[1; 32]).unwrap().kind(), BlockType::Leaf);
}

#[test]
fn the_visitors_of_the_library_can_be_used_alone() {
    let (db, catalog) = sample();
    assert_eq!(traverse(&db, &catalog, db.root(), &mut VerifyVisitor), None);
    let leaf = id_of(&sealed_leaf(b""));
    assert_eq!(traverse(&db, &catalog, db.root(), &mut ResolveBlockVisitor(leaf)), Some(BlockType::Leaf));
    let mut plan = PlanVisitor::new();
    assert_eq!(traverse(&db, &catalog, db.root(), &mut plan), None);
    assert_eq!(plan.into_ops(), expected_plan());
}

/// top/
///   joined   a file list that names the leaf "data"
/// The store holds the directory and the file list, not the leaf.
fn with_file_list() -> (BlockDb, Catalog, Vec<u8>, BlockId) {
    let leaf = sealed_leaf(b"data");
    let meta_sealed = vec![2u8, 7];
    let top_sealed = vec![1u8, 7];
    let (leaf_id, meta_id, top_id) = (id_of(&leaf), id_of(&meta_sealed), id_of(&top_sealed));
    let key: Key = [0; 16];
    let db = BlockDb::new(
        BlockRef::new(top_id, key, Vec::new()),
        vec![Block::Full(Full::new(meta_sealed)), Block::Full(Full::new(top_sealed))],
    );
    let mut catalog = Catalog::new();
    catalog.insert(meta_id, Decoded::Meta(Meta { blocks: vec![BlockRef::new(leaf_id, key, Vec::new())] }));
    catalog.insert(
        top_id,
        Decoded::Dir(Dir {
            children: vec![Child {
                name: "joined".to_string(),
                metadata: (),
                _type: BlockType::FileMeta,
                blockref: BlockRef::new(meta_id, key, Vec::new()),
            }],
        }),
    );
    (db, catalog, leaf, leaf_id)
}

#[test]
fn file_list_with_a_missing_leaf_does_not_verify() {
    let (db, catalog, _, leaf_id) = with_file_list();
    assert!(!verify(&db, &catalog, false));
    assert_eq!(traverse(&db, &catalog, db.root(), &mut VerifyVisitor), Some(()));
    assert!(resolve(&db, &catalog, leaf_id, false).is_none());
    assert!(Frontend::from_blockdb(&db, &catalog).write_to_dir().is_err());
}

#[test]
fn file_list_with_a_partial_leaf_does_not_verify() {
    let (mut db, mut catalog, _, leaf_id) = with_file_list();
    db.add(Block::Partial(Partial::new(leaf_id, 5)));
    catalog.insert(leaf_id, Decoded::Leaf(Leaf { data: b"data".to_vec() }));
    assert!(!verify(&db, &catalog, false));
    assert!(resolve(&db, &catalog, leaf_id, false).is_none());
}

#[test]
fn file_list_with_an_unread_leaf_does_not_verify() {
    let (mut db, catalog, leaf, leaf_id) = with_file_list();
    db.add(Block::Full(Full::new(leaf)));
    assert!(!verify(&db, &catalog, false));
    assert!(resolve(&db, &catalog, leaf_id, false).is_none());
}

#[test]
fn file_list_with_all_its_leaves_verifies() {
    let (mut db, mut catalog, leaf, leaf_id) = with_file_list();
    db.add(Block::Full(Full::new(leaf)));
    catalog.insert(leaf_id, Decoded::Leaf(Leaf { data: b"data".to_vec() }));
    assert!(verify(&db, &catalog, false));
    assert_eq!(
        Frontend::from_blockdb(&db, &catalog).write_to_dir(),
        Ok(vec![FsOp::WriteFile(path(&["joined"]), b"data".to_vec())])
    );
}

#[test]
fn resolve_finds_a_leaf_of_a_file_list() {
    let (mut db, mut catalog, leaf, leaf_id) = with_file_list();
    db.add(Block::Full(Full::new(leaf)));
    catalog.insert(leaf_id, Decoded::Leaf(Leaf { data: b"data".to_vec() }));
    match resolve(&db, &catalog, leaf_id, false) {
        Some(Decoded::Leaf(l)) => assert_eq!(l.data, b"data".to_vec()),
        _ => panic!("no leaf"),
    }
    assert_eq!(
        traverse(&db, &catalog, db.root(), &mut ResolveBlockVisitor(leaf_id)),
        Some(BlockType::Leaf)
    );
    let meta_id = id_of(&[2u8, 7]);
    match resolve(&db, &catalog, meta_id, false) {
        Some(Decoded::Meta(m)) => assert_eq!(m.blocks.len(), 1),
        _ => panic!("no file list"),
    }
}
