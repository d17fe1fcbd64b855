//! The tree of blocks: directories, file lists and leaves, the walk over the
//! tree from a root, and what follows from the walk.
//!
//! The store holds the blocks as they travel: encrypted. What a block says
//! once it is opened is kept in a catalog beside the store, by the id of the
//! block.

use crate::blockdb::{keccak256, same_id, Block, BlockDb, BlockId, BlockRef, Full, Key, Partial};
use crate::bytes::{append, copy_range};
use vstd::prelude::*;

verus! {

/// What kind of content a block has.
#[derive(Debug, Clone, Copy, PartialEq, Eq, Structural)]
pub enum BlockType {
    Directory,
    FileMeta,
    Leaf,
}

impl BlockType {
    /// The number that stands for the kind in a stored directory: 1 for a
    /// directory, 2 for a file list, 3 for a leaf.
    pub fn tag(&self) -> (r: u8)
        ensures
            r == match *self {
                BlockType::Directory => 1u8,
                BlockType::FileMeta => 2u8,
                BlockType::Leaf => 3u8,
            },
    {
        match self {
            BlockType::Directory => 1,
            BlockType::FileMeta => 2,
            BlockType::Leaf => 3,
        }
    }

    /// The kind that `tag` stands for.
    pub fn from_tag(tag: u8) -> (r: Option<BlockType>)
        ensures
            r == match tag {
                1u8 => Some(BlockType::Directory),
                2u8 => Some(BlockType::FileMeta),
                3u8 => Some(BlockType::Leaf),
                _ => None::<BlockType>,
            },
    {
        match tag {
            1 => Some(BlockType::Directory),
            2 => Some(BlockType::FileMeta),
            3 => Some(BlockType::Leaf),
            _ => None,
        }
    }
}

/// The bytes of a file, or of a part of one.
#[derive(Debug)]
pub struct Leaf {
    pub data: Vec<u8>,
}

/// A file as a list of leaves, whose bytes in this order are its content.
#[derive(Debug)]
pub struct Meta {
    pub blocks: Vec<BlockRef>,
}

/// A directory: its entries.
#[derive(Debug)]
pub struct Dir {
    pub children: Vec<Child>,
}

/// An entry of a directory.
#[derive(Debug)]
pub struct Child {
    pub name: String,
    pub metadata: (),
    pub _type: BlockType,
    pub blockref: BlockRef,
}

/// What a block says once it is opened.
#[derive(Debug)]
pub enum Decoded {
    Dir(Dir),
    Meta(Meta),
    Leaf(Leaf),
}

impl Decoded {
    /// The kind of the content.
    pub open spec fn kind_spec(&self) -> BlockType {
        match self {
            Decoded::Dir(_) => BlockType::Directory,
            Decoded::Meta(_) => BlockType::FileMeta,
            Decoded::Leaf(_) => BlockType::Leaf,
        }
    }

    /// The kind of the content.
    pub fn kind(&self) -> (r: BlockType)
        ensures
            r == self.kind_spec(),
    {
        match self {
            Decoded::Dir(_) => BlockType::Directory,
            Decoded::Meta(_) => BlockType::FileMeta,
            Decoded::Leaf(_) => BlockType::Leaf,
        }
    }
}

/// The opened content of one block.
#[derive(Debug)]
pub struct CatalogEntry {
    pub id: BlockId,
    pub decoded: Decoded,
}

/// The content of the first of `entries` with the id `id`.
pub open spec fn lookup_in(entries: Seq<CatalogEntry>, id: Seq<u8>) -> Option<Decoded>
    decreases entries.len(),
{
    if entries.len() == 0 {
        None
    } else if entries[0].id@ == id {
        Some(entries[0].decoded)
    } else {
        lookup_in(entries.drop_first(), id)
    }
}

/// The opened content of blocks, by their ids.
#[derive(Debug)]
pub struct Catalog {
    entries: Vec<CatalogEntry>,
}

impl Catalog {
    /// The entries, in the order in which they were added.
    pub closed spec fn entries_spec(&self) -> Seq<CatalogEntry> {
        self.entries@
    }

    /// The content that is known of the block `id`.
    pub open spec fn lookup(&self, id: Seq<u8>) -> Option<Decoded> {
        lookup_in(self.entries_spec(), id)
    }

    /// A catalog without entries.
    pub fn new() -> (r: Catalog)
        ensures
            r.entries_spec().len() == 0,
    {
        Catalog { entries: Vec::new() }
    }

    /// The place of the first entry for `id`.
    fn position(&self, id: &BlockId) -> (r: Option<usize>)
        ensures
            match r {
                Some(i) => i < self.entries_spec().len() && self.lookup(id@) == Some(
                    self.entries_spec()[i as int].decoded,
                ),
                None => self.lookup(id@).is_none(),
            },
    {
        let mut i: usize = 0;
        proof {
            assert(self.entries@.skip(0) =~= self.entries@);
        }
        while i < self.entries.len()
            invariant
                i <= self.entries@.len(),
                self.lookup(id@) == lookup_in(self.entries@.skip(i as int), id@),
            decreases self.entries@.len() - i,
        {
            proof {
                assert(self.entries@.skip(i as int).drop_first() =~= self.entries@.skip(i + 1));
            }
            let other: BlockId = self.entries[i].id;
            if same_id(&other, id) {
                return Some(i);
            }
            i += 1;
        }
        None
    }

    /// The content that is known of the block `id`.
    pub fn get(&self, id: &BlockId) -> (r: Option<&Decoded>)
        ensures
            r.is_some() == self.lookup(id@).is_some(),
            r matches Some(d) ==> *d == self.lookup(id@).unwrap(),
    {
        match self.position(id) {
            Some(i) => Some(&self.entries[i].decoded),
            None => None,
        }
    }

    /// Notes that the block `id` says `decoded`, unless something is known of
    /// that block already: then nothing changes.
    pub fn insert(&mut self, id: BlockId, decoded: Decoded)
        ensures
            final(self).entries_spec() == if old(self).lookup(id@).is_some() {
                old(self).entries_spec()
            } else {
                old(self).entries_spec().push(CatalogEntry { id, decoded })
            },
            forall|other: Seq<u8>|
                final(self).lookup(other) == if other == id@ && old(self).lookup(other).is_none() {
                    Some(decoded)
                } else {
                    old(self).lookup(other)
                },
    {
        if self.position(&id).is_none() {
            proof {
                assert forall|other: Seq<u8>|
                    lookup_in(self.entries@.push(CatalogEntry { id, decoded }), other)
                        == if other == id@ && lookup_in(self.entries@, other).is_none() {
                        Some(decoded)
                    } else {
                        lookup_in(self.entries@, other)
                    } by {
                    lemma_lookup_push(self.entries@, CatalogEntry { id, decoded }, other);
                }
            }
            self.entries.push(CatalogEntry { id, decoded });
        }
    }
}

/// What a lookup finds after an entry was added at the end.
pub proof fn lemma_lookup_push(entries: Seq<CatalogEntry>, entry: CatalogEntry, id: Seq<u8>)
    ensures
        lookup_in(entries.push(entry), id) == if lookup_in(entries, id).is_some() {
            lookup_in(entries, id)
        } else if entry.id@ == id {
            Some(entry.decoded)
        } else {
            None
        },
    decreases entries.len(),
{
    let all = entries.push(entry);
    if entries.len() == 0 {
        assert(all.drop_first() =~= Seq::<CatalogEntry>::empty());
        assert(all[0] == entry);
        assert(lookup_in(all.drop_first(), id).is_none());
    } else {
        assert(all.drop_first() =~= entries.drop_first().push(entry));
        assert(all[0] == entries[0]);
        lemma_lookup_push(entries.drop_first(), entry, id);
    }
}

/// What is done at each block that a walk over the tree comes to. Each
/// method may end the walk by returning a value. What a visitor has noted so
/// far is its state.
pub trait Visitor<T>: Sized {
    /// What the visitor has noted so far, as a plain value.
    type State;

    /// What this visitor has noted so far.
    spec fn state(&self) -> Self::State;

    /// What `visit_dir` does: the state afterwards, and what it returns.
    spec fn dir_spec(state: Self::State, path: Seq<String>, block: Full, dir: Dir) -> (
        Self::State,
        Option<T>,
    );

    /// What `visit_meta` does.
    spec fn meta_spec(
        state: Self::State,
        blockdb: BlockDb,
        catalog: Catalog,
        path: Seq<String>,
        block: Full,
        meta: Meta,
    ) -> (Self::State, Option<T>);

    /// What `visit_leaf` does.
    spec fn leaf_spec(state: Self::State, path: Seq<String>, block: Full, leaf: Leaf) -> (
        Self::State,
        Option<T>,
    );

    /// What `visit_part` does.
    spec fn part_spec(state: Self::State, path: Seq<String>, block: Full, leaf: Leaf) -> (
        Self::State,
        Option<T>,
    );

    /// What `visit_partial` does.
    spec fn partial_spec(state: Self::State, path: Seq<String>, block: Partial) -> (
        Self::State,
        Option<T>,
    );

    /// What `visit_missing` does.
    spec fn missing_spec(state: Self::State, path: Seq<String>, blockid: BlockId) -> (
        Self::State,
        Option<T>,
    );

    /// What `visit_unreadable` does.
    spec fn unreadable_spec(state: Self::State, path: Seq<String>, block: Full) -> (
        Self::State,
        Option<T>,
    );

    /// At a directory, before its entries.
    fn visit_dir(&mut self, path: &Vec<String>, block: &Full, dir: &Dir) -> (r: Option<T>)
        ensures
            (final(self).state(), r) == Self::dir_spec(old(self).state(), path@, *block, *dir),
    ;

    /// At a file list, before the leaves that it names.
    fn visit_meta(
        &mut self,
        blockdb: &BlockDb,
        catalog: &Catalog,
        path: &Vec<String>,
        block: &Full,
        meta: &Meta,
    ) -> (r: Option<T>)
        requires
            blockdb.wf(),
        ensures
            (final(self).state(), r) == Self::meta_spec(
                old(self).state(),
                *blockdb,
                *catalog,
                path@,
                *block,
                *meta,
            ),
    ;

    /// At a leaf that a directory names.
    fn visit_leaf(&mut self, path: &Vec<String>, block: &Full, leaf: &Leaf) -> (r: Option<T>)
        ensures
            (final(self).state(), r) == Self::leaf_spec(old(self).state(), path@, *block, *leaf),
    ;

    /// At a leaf that the file list at `path` names.
    fn visit_part(&mut self, path: &Vec<String>, block: &Full, leaf: &Leaf) -> (r: Option<T>)
        ensures
            (final(self).state(), r) == Self::part_spec(old(self).state(), path@, *block, *leaf),
    ;

    /// At a block of which chunks are still missing.
    fn visit_partial(&mut self, path: &Vec<String>, block: &Partial) -> (r: Option<T>)
        ensures
            (final(self).state(), r) == Self::partial_spec(old(self).state(), path@, *block),
    ;

    /// At a reference to a block that the store does not have.
    fn visit_missing(&mut self, path: &Vec<String>, blockid: BlockId) -> (r: Option<T>)
        ensures
            (final(self).state(), r) == Self::missing_spec(old(self).state(), path@, blockid),
    ;

    /// At a full block that cannot be read as what its reference says: no
    /// content of that kind is known of it, or it lies deeper in the tree
    /// than the store has blocks.
    fn visit_unreadable(&mut self, path: &Vec<String>, block: &Full) -> (r: Option<T>)
        ensures
            (final(self).state(), r) == Self::unreadable_spec(old(self).state(), path@, *block),
    ;
}

/// The content of the block `id` where it is known, is of the kind `kind`,
/// and the walk may still go `depth` levels down.
pub open spec fn readable(catalog: Catalog, id: Seq<u8>, kind: BlockType, depth: nat) -> Option<
    Decoded,
> {
    if depth == 0 {
        None
    } else {
        match catalog.lookup(id) {
            Some(d) => if d.kind_spec() == kind {
                Some(d)
            } else {
                None
            },
            None => None,
        }
    }
}

/// The walk from the block that `bref` names, which is of the kind `kind`
/// and lies at `path`, at most `depth` levels down: the visitor's state
/// afterwards and the value that ended the walk, if one did. The block is
/// visited first, and then, where it is a directory, its entries in their
/// order, each with what lies below it, and where it is a file list, the
/// leaves that it names, in their order.
pub open spec fn walk<T, V: Visitor<T>>(
    state: V::State,
    blockdb: BlockDb,
    catalog: Catalog,
    bref: BlockRef,
    kind: BlockType,
    path: Seq<String>,
    depth: nat,
) -> (V::State, Option<T>)
    decreases depth, 0nat,
{
    let id = bref.blockid@;
    if !blockdb.has(id) {
        V::missing_spec(state, path, bref.blockid)
    } else {
        match blockdb.block(id) {
            Block::Partial(partial) => V::partial_spec(state, path, partial),
            Block::Full(full) => match readable(catalog, id, kind, depth) {
                None => V::unreadable_spec(state, path, full),
                Some(Decoded::Dir(dir)) => {
                    let (after, r) = V::dir_spec(state, path, full, dir);
                    if r.is_some() {
                        (after, r)
                    } else {
                        walk_children::<T, V>(
                            after,
                            blockdb,
                            catalog,
                            dir,
                            path,
                            (depth - 1) as nat,
                            0,
                        )
                    }
                },
                Some(Decoded::Meta(meta)) => {
                    let (after, r) = V::meta_spec(state, blockdb, catalog, path, full, meta);
                    if r.is_some() {
                        (after, r)
                    } else {
                        walk_parts::<T, V>(
                            after,
                            blockdb,
                            catalog,
                            meta,
                            path,
                            (depth - 1) as nat,
                            0,
                        )
                    }
                },
                Some(Decoded::Leaf(leaf)) => V::leaf_spec(state, path, full, leaf),
            },
        }
    }
}

/// The visit of the block that `bref` names as a leaf of the file list at
/// `path`, `depth` being the number of levels that the walk may still go
/// down.
pub open spec fn walk_part<T, V: Visitor<T>>(
    state: V::State,
    blockdb: BlockDb,
    catalog: Catalog,
    bref: BlockRef,
    path: Seq<String>,
    depth: nat,
) -> (V::State, Option<T>) {
    let id = bref.blockid@;
    if !blockdb.has(id) {
        V::missing_spec(state, path, bref.blockid)
    } else {
        match blockdb.block(id) {
            Block::Partial(partial) => V::partial_spec(state, path, partial),
            Block::Full(full) => match readable(catalog, id, BlockType::Leaf, depth) {
                Some(Decoded::Leaf(leaf)) => V::part_spec(state, path, full, leaf),
                _ => V::unreadable_spec(state, path, full),
            },
        }
    }
}

/// The walk over the leaves that the file list `meta` names, from place
/// `from` on.
pub open spec fn walk_parts<T, V: Visitor<T>>(
    state: V::State,
    blockdb: BlockDb,
    catalog: Catalog,
    meta: Meta,
    path: Seq<String>,
    depth: nat,
    from: nat,
) -> (V::State, Option<T>)
    decreases meta.blocks@.len() - from,
{
    if from >= meta.blocks@.len() {
        (state, None)
    } else {
        let (after, r) = walk_part::<T, V>(
            state,
            blockdb,
            catalog,
            meta.blocks@[from as int],
            path,
            depth,
        );
        if r.is_some() {
            (after, r)
        } else {
            walk_parts::<T, V>(after, blockdb, catalog, meta, path, depth, from + 1)
        }
    }
}

/// The walk over the entries of `dir` from entry `from` on.
pub open spec fn walk_children<T, V: Visitor<T>>(
    state: V::State,
    blockdb: BlockDb,
    catalog: Catalog,
    dir: Dir,
    path: Seq<String>,
    depth: nat,
    from: nat,
) -> (V::State, Option<T>)
    decreases depth, 1 + dir.children@.len() - from,
{
    if from >= dir.children@.len() {
        (state, None)
    } else {
        let child = dir.children@[from as int];
        let (after, r) = walk::<T, V>(
            state,
            blockdb,
            catalog,
            child.blockref,
            child._type,
            path.push(child.name),
            depth,
        );
        if r.is_some() {
            (after, r)
        } else {
            walk_children::<T, V>(after, blockdb, catalog, dir, path, depth, from + 1)
        }
    }
}

/// The path of the entry `name` of the directory at `path`.
fn child_path(path: &Vec<String>, name: &String) -> (r: Vec<String>)
    ensures
        r@ == path@.push(*name),
{
    let mut r: Vec<String> = Vec::new();
    let mut i: usize = 0;
    while i < path.len()
        invariant
            i <= path@.len(),
            r@ == path@.subrange(0, i as int),
        decreases path@.len() - i,
    {
        r.push(path[i].clone());
        proof {
            assert(r@ =~= path@.subrange(0, i + 1));
        }
        i += 1;
    }
    r.push(name.clone());
    proof {
        assert(r@ =~= path@.push(*name));
    }
    r
}

/// Walks the tree from the root `root`, depth first, and returns the value
/// that ended the walk, if one did.
pub fn traverse<T, V: Visitor<T>>(
    blockdb: &BlockDb,
    catalog: &Catalog,
    root: &BlockRef,
    visitor: &mut V,
) -> (r: Option<T>)
    requires
        blockdb.wf(),
    ensures
        (final(visitor).state(), r) == walk::<T, V>(
            old(visitor).state(),
            *blockdb,
            *catalog,
            *root,
            BlockType::Directory,
            Seq::<String>::empty(),
            blockdb.blocks_spec().len(),
        ),
{
    let path: Vec<String> = Vec::new();
    traverse_rec(
        blockdb,
        catalog,
        &path,
        root,
        BlockType::Directory,
        visitor,
        blockdb.block_count(),
    )
}

/// Walks the tree from the block that `bref` names, at most `depth` levels
/// down.
pub fn traverse_rec<T, V: Visitor<T>>(
    blockdb: &BlockDb,
    catalog: &Catalog,
    path: &Vec<String>,
    bref: &BlockRef,
    kind: BlockType,
    visitor: &mut V,
    depth: usize,
) -> (r: Option<T>)
    requires
        blockdb.wf(),
    ensures
        (final(visitor).state(), r) == walk::<T, V>(
            old(visitor).state(),
            *blockdb,
            *catalog,
            *bref,
            kind,
            path@,
            depth as nat,
        ),
    decreases depth,
{
    if !blockdb.contains(bref.blockid) {
        return visitor.visit_missing(path, bref.blockid);
    }
    let block: &Block = blockdb.get(bref.blockid);
    let full: &Full = match block {
        Block::Partial(partial) => {
            return visitor.visit_partial(path, partial);
        },
        Block::Full(full) => full,
    };
    if depth == 0 {
        return visitor.visit_unreadable(path, full);
    }
    let decoded: &Decoded = match catalog.get(&bref.blockid) {
        Some(d) => d,
        None => {
            return visitor.visit_unreadable(path, full);
        },
    };
    if decoded.kind() != kind {
        return visitor.visit_unreadable(path, full);
    }
    match decoded {
        Decoded::Dir(dir) => {
            if let Some(t) = visitor.visit_dir(path, full, dir) {
                return Some(t);
            }
            let mut i: usize = 0;
            while i < dir.children.len()
                invariant
                    blockdb.wf(),
                    depth > 0,
                    i <= dir.children@.len(),
                    walk::<T, V>(
                        old(visitor).state(),
                        *blockdb,
                        *catalog,
                        *bref,
                        kind,
                        path@,
                        depth as nat,
                    ) == walk_children::<T, V>(
                        visitor.state(),
                        *blockdb,
                        *catalog,
                        *dir,
                        path@,
                        (depth - 1) as nat,
                        i as nat,
                    ),
                decreases dir.children@.len() - i,
            {
                let child: &Child = &dir.children[i];
                let below: Vec<String> = child_path(path, &child.name);
                if let Some(t) = traverse_rec(
                    blockdb,
                    catalog,
                    &below,
                    &child.blockref,
                    child._type,
                    visitor,
                    depth - 1,
                ) {
                    return Some(t);
                }
                i += 1;
            }
            None
        },
        Decoded::Meta(meta) => {
            if let Some(t) = visitor.visit_meta(blockdb, catalog, path, full, meta) {
                return Some(t);
            }
            let mut i: usize = 0;
            while i < meta.blocks.len()
                invariant
                    blockdb.wf(),
                    depth > 0,
                    i <= meta.blocks@.len(),
                    walk::<T, V>(
                        old(visitor).state(),
                        *blockdb,
                        *catalog,
                        *bref,
                        kind,
                        path@,
                        depth as nat,
                    ) == walk_parts::<T, V>(
                        visitor.state(),
                        *blockdb,
                        *catalog,
                        *meta,
                        path@,
                        (depth - 1) as nat,
                        i as nat,
                    ),
                decreases meta.blocks@.len() - i,
            {
                if let Some(t) = traverse_part(
                    blockdb,
                    catalog,
                    path,
                    &meta.blocks[i],
                    visitor,
                    depth - 1,
                ) {
                    return Some(t);
                }
                i += 1;
            }
            None
        },
        Decoded::Leaf(leaf) => visitor.visit_leaf(path, full, leaf),
    }
}

/// Visits the block that `bref` names as a leaf of the file list at `path`.
fn traverse_part<T, V: Visitor<T>>(
    blockdb: &BlockDb,
    catalog: &Catalog,
    path: &Vec<String>,
    bref: &BlockRef,
    visitor: &mut V,
    depth: usize,
) -> (r: Option<T>)
    requires
        blockdb.wf(),
    ensures
        (final(visitor).state(), r) == walk_part::<T, V>(
            old(visitor).state(),
            *blockdb,
            *catalog,
            *bref,
            path@,
            depth as nat,
        ),
{
    if !blockdb.contains(bref.blockid) {
        return visitor.visit_missing(path, bref.blockid);
    }
    let full: &Full = match blockdb.get(bref.blockid) {
        Block::Partial(partial) => {
            return visitor.visit_partial(path, partial);
        },
        Block::Full(full) => full,
    };
    if depth == 0 {
        return visitor.visit_unreadable(path, full);
    }
    match catalog.get(&bref.blockid) {
        Some(Decoded::Leaf(leaf)) => visitor.visit_part(path, full, leaf),
        _ => visitor.visit_unreadable(path, full),
    }
}

/// Looks for the block with the id that it holds, and ends the walk with the
/// kind of that block.
pub struct ResolveBlockVisitor(pub BlockId);

/// The kind `kind` where `block` is the block `target`.
pub open spec fn found(target: BlockId, block: Full, kind: BlockType) -> (
    BlockId,
    Option<BlockType>,
) {
    if block.id_spec() == target@ {
        (target, Some(kind))
    } else {
        (target, None)
    }
}

impl ResolveBlockVisitor {
    fn check(&self, block: &Full, kind: BlockType) -> (r: Option<BlockType>)
        ensures
            (self.0, r) == found(self.0, *block, kind),
    {
        let id: BlockId = block.id();
        if same_id(&id, &self.0) {
            Some(kind)
        } else {
            None
        }
    }
}

impl Visitor<BlockType> for ResolveBlockVisitor {
    type State = BlockId;

    open spec fn state(&self) -> BlockId {
        self.0
    }

    open spec fn dir_spec(state: BlockId, path: Seq<String>, block: Full, dir: Dir) -> (
        BlockId,
        Option<BlockType>,
    ) {
        found(state, block, BlockType::Directory)
    }

    open spec fn meta_spec(
        state: BlockId,
        blockdb: BlockDb,
        catalog: Catalog,
        path: Seq<String>,
        block: Full,
        meta: Meta,
    ) -> (BlockId, Option<BlockType>) {
        found(state, block, BlockType::FileMeta)
    }

    open spec fn leaf_spec(state: BlockId, path: Seq<String>, block: Full, leaf: Leaf) -> (
        BlockId,
        Option<BlockType>,
    ) {
        found(state, block, BlockType::Leaf)
    }

    open spec fn part_spec(state: BlockId, path: Seq<String>, block: Full, leaf: Leaf) -> (
        BlockId,
        Option<BlockType>,
    ) {
        found(state, block, BlockType::Leaf)
    }

    open spec fn partial_spec(state: BlockId, path: Seq<String>, block: Partial) -> (
        BlockId,
        Option<BlockType>,
    ) {
        (state, None)
    }

    open spec fn missing_spec(state: BlockId, path: Seq<String>, blockid: BlockId) -> (
        BlockId,
        Option<BlockType>,
    ) {
        (state, None)
    }

    open spec fn unreadable_spec(state: BlockId, path: Seq<String>, block: Full) -> (
        BlockId,
        Option<BlockType>,
    ) {
        (state, None)
    }

    fn visit_dir(&mut self, path: &Vec<String>, block: &Full, dir: &Dir) -> (r: Option<BlockType>) {
        self.check(block, BlockType::Directory)
    }

    fn visit_meta(
        &mut self,
        blockdb: &BlockDb,
        catalog: &Catalog,
        path: &Vec<String>,
        block: &Full,
        meta: &Meta,
    ) -> (r: Option<BlockType>) {
        self.check(block, BlockType::FileMeta)
    }

    fn visit_leaf(&mut self, path: &Vec<String>, block: &Full, leaf: &Leaf) -> (r: Option<
        BlockType,
    >) {
        self.check(block, BlockType::Leaf)
    }

    fn visit_part(&mut self, path: &Vec<String>, block: &Full, leaf: &Leaf) -> (r: Option<
        BlockType,
    >) {
        self.check(block, BlockType::Leaf)
    }

    fn visit_partial(&mut self, path: &Vec<String>, block: &Partial) -> (r: Option<BlockType>) {
        None
    }

    fn visit_missing(&mut self, path: &Vec<String>, blockid: BlockId) -> (r: Option<BlockType>) {
        None
    }

    fn visit_unreadable(&mut self, path: &Vec<String>, block: &Full) -> (r: Option<BlockType>) {
        None
    }
}

/// Ends the walk at the first block that is not there in full and readable.
pub struct VerifyVisitor;

impl Visitor<()> for VerifyVisitor {
    type State = ();

    open spec fn state(&self) -> () {
        ()
    }

    open spec fn dir_spec(state: (), path: Seq<String>, block: Full, dir: Dir) -> ((), Option<()>) {
        ((), None)
    }

    open spec fn meta_spec(
        state: (),
        blockdb: BlockDb,
        catalog: Catalog,
        path: Seq<String>,
        block: Full,
        meta: Meta,
    ) -> ((), Option<()>) {
        ((), None)
    }

    open spec fn leaf_spec(state: (), path: Seq<String>, block: Full, leaf: Leaf) -> (
        (),
        Option<()>,
    ) {
        ((), None)
    }

    open spec fn part_spec(state: (), path: Seq<String>, block: Full, leaf: Leaf) -> (
        (),
        Option<()>,
    ) {
        ((), None)
    }

    open spec fn partial_spec(state: (), path: Seq<String>, block: Partial) -> ((), Option<()>) {
        ((), Some(()))
    }

    open spec fn missing_spec(state: (), path: Seq<String>, blockid: BlockId) -> ((), Option<()>) {
        ((), Some(()))
    }

    open spec fn unreadable_spec(state: (), path: Seq<String>, block: Full) -> ((), Option<()>) {
        ((), Some(()))
    }

    fn visit_dir(&mut self, path: &Vec<String>, block: &Full, dir: &Dir) -> (r: Option<()>) {
        None
    }

    fn visit_meta(
        &mut self,
        blockdb: &BlockDb,
        catalog: &Catalog,
        path: &Vec<String>,
        block: &Full,
        meta: &Meta,
    ) -> (r: Option<()>) {
        None
    }

    fn visit_leaf(&mut self, path: &Vec<String>, block: &Full, leaf: &Leaf) -> (r: Option<()>) {
        None
    }

    fn visit_part(&mut self, path: &Vec<String>, block: &Full, leaf: &Leaf) -> (r: Option<()>) {
        None
    }

    fn visit_partial(&mut self, path: &Vec<String>, block: &Partial) -> (r: Option<()>) {
        Some(())
    }

    fn visit_missing(&mut self, path: &Vec<String>, blockid: BlockId) -> (r: Option<()>) {
        Some(())
    }

    fn visit_unreadable(&mut self, path: &Vec<String>, block: &Full) -> (r: Option<()>) {
        Some(())
    }
}

/// Whether the block that `bref` names is in the store in full and known
/// as a leaf, `depth` being the number of levels that the walk may still go
/// down.
pub open spec fn part_intact(blockdb: BlockDb, catalog: Catalog, bref: BlockRef, depth: nat) -> bool {
    let id = bref.blockid@;
    &&& blockdb.has(id)
    &&& blockdb.block(id) is Full
    &&& readable(catalog, id, BlockType::Leaf, depth).is_some()
}

/// Whether the leaves that the file list `meta` names, from place `from`
/// on, are all there.
pub open spec fn intact_parts(
    blockdb: BlockDb,
    catalog: Catalog,
    meta: Meta,
    depth: nat,
    from: nat,
) -> bool
    decreases meta.blocks@.len() - from,
{
    from >= meta.blocks@.len() || {
        &&& part_intact(blockdb, catalog, meta.blocks@[from as int], depth)
        &&& intact_parts(blockdb, catalog, meta, depth, from + 1)
    }
}

/// Whether the tree below the block that `bref` names is all there: the
/// block is in the store in full, its content of the kind `kind` is known,
/// and the same holds of each entry of a directory and of each leaf that a
/// file list names, at most `depth` levels down. So no block that is
/// reached from `bref` is missing, partial or unreadable.
pub open spec fn intact(
    blockdb: BlockDb,
    catalog: Catalog,
    bref: BlockRef,
    kind: BlockType,
    depth: nat,
) -> bool
    decreases depth, 0nat,
{
    let id = bref.blockid@;
    &&& blockdb.has(id)
    &&& blockdb.block(id) is Full
    &&& match readable(catalog, id, kind, depth) {
        None => false,
        Some(Decoded::Dir(dir)) => intact_children(
            blockdb,
            catalog,
            dir,
            (depth - 1) as nat,
            0,
        ),
        Some(Decoded::Meta(meta)) => intact_parts(blockdb, catalog, meta, (depth - 1) as nat, 0),
        Some(Decoded::Leaf(_)) => true,
    }
}

/// Whether the trees below the entries of `dir` from entry `from` on are all
/// there.
pub open spec fn intact_children(
    blockdb: BlockDb,
    catalog: Catalog,
    dir: Dir,
    depth: nat,
    from: nat,
) -> bool
    decreases depth, 1 + dir.children@.len() - from,
{
    from >= dir.children@.len() || {
        let child = dir.children@[from as int];
        &&& intact(blockdb, catalog, child.blockref, child._type, depth)
        &&& intact_children(blockdb, catalog, dir, depth, from + 1)
    }
}

/// The checking walk over the leaves of a file list ends early exactly
/// where one of them is not there.
pub proof fn lemma_verify_walk_parts(
    blockdb: BlockDb,
    catalog: Catalog,
    meta: Meta,
    path: Seq<String>,
    depth: nat,
    from: nat,
)
    ensures
        walk_parts::<(), VerifyVisitor>((), blockdb, catalog, meta, path, depth, from).1.is_none()
            == intact_parts(blockdb, catalog, meta, depth, from),
    decreases meta.blocks@.len() - from,
{
    if from < meta.blocks@.len() {
        lemma_verify_walk_parts(blockdb, catalog, meta, path, depth, from + 1);
    }
}

/// The checking walk ends early exactly where the tree is not all there.
pub proof fn lemma_verify_walk(
    blockdb: BlockDb,
    catalog: Catalog,
    bref: BlockRef,
    kind: BlockType,
    path: Seq<String>,
    depth: nat,
)
    ensures
        walk::<(), VerifyVisitor>((), blockdb, catalog, bref, kind, path, depth).1.is_none()
            == intact(blockdb, catalog, bref, kind, depth),
    decreases depth, 0nat,
{
    let id = bref.blockid@;
    if blockdb.has(id) {
        match blockdb.block(id) {
            Block::Partial(_) => {},
            Block::Full(_) => match readable(catalog, id, kind, depth) {
                Some(Decoded::Dir(dir)) => {
                    lemma_verify_walk_children(
                        blockdb,
                        catalog,
                        dir,
                        path,
                        (depth - 1) as nat,
                        0,
                    );
                },
                Some(Decoded::Meta(meta)) => {
                    lemma_verify_walk_parts(blockdb, catalog, meta, path, (depth - 1) as nat, 0);
                },
                _ => {},
            },
        }
    }
}

/// The checking walk over the entries of a directory ends early exactly
/// where one of the trees below them is not all there.
pub proof fn lemma_verify_walk_children(
    blockdb: BlockDb,
    catalog: Catalog,
    dir: Dir,
    path: Seq<String>,
    depth: nat,
    from: nat,
)
    ensures
        walk_children::<(), VerifyVisitor>((), blockdb, catalog, dir, path, depth, from).1.is_none()
            == intact_children(blockdb, catalog, dir, depth, from),
    decreases depth, 1 + dir.children@.len() - from,
{
    if from < dir.children@.len() {
        let child = dir.children@[from as int];
        lemma_verify_walk(
            blockdb,
            catalog,
            child.blockref,
            child._type,
            path.push(child.name),
            depth,
        );
        lemma_verify_walk_children(blockdb, catalog, dir, path, depth, from + 1);
    }
}

/// Whether the block that `bref` names is the block `target`, in the store
/// in full and known as a leaf.
pub open spec fn part_holds(
    blockdb: BlockDb,
    catalog: Catalog,
    bref: BlockRef,
    depth: nat,
    target: Seq<u8>,
) -> bool {
    part_intact(blockdb, catalog, bref, depth) && bref.blockid@ == target
}

/// Whether one of the leaves that the file list `meta` names, from place
/// `from` on, is the block `target`, in the store in full and known.
pub open spec fn parts_hold(
    blockdb: BlockDb,
    catalog: Catalog,
    meta: Meta,
    depth: nat,
    from: nat,
    target: Seq<u8>,
) -> bool
    decreases meta.blocks@.len() - from,
{
    from < meta.blocks@.len() && {
        ||| part_holds(blockdb, catalog, meta.blocks@[from as int], depth, target)
        ||| parts_hold(blockdb, catalog, meta, depth, from + 1, target)
    }
}

/// Whether the block `target` is reached from the block that `bref` names,
/// which is of the kind `kind`, at most `depth` levels down: it is that
/// block, an entry of a directory that is reached, or a leaf of a file list
/// that is reached, and the store has it in full with known content of the
/// kind under which it is named. Nothing is reached through a block that is
/// missing, partial or unreadable.
pub open spec fn holds(
    blockdb: BlockDb,
    catalog: Catalog,
    bref: BlockRef,
    kind: BlockType,
    depth: nat,
    target: Seq<u8>,
) -> bool
    decreases depth, 0nat,
{
    let id = bref.blockid@;
    &&& blockdb.has(id)
    &&& blockdb.block(id) is Full
    &&& match readable(catalog, id, kind, depth) {
        None => false,
        Some(Decoded::Dir(dir)) => id == target || children_hold(
            blockdb,
            catalog,
            dir,
            (depth - 1) as nat,
            0,
            target,
        ),
        Some(Decoded::Meta(meta)) => id == target || parts_hold(
            blockdb,
            catalog,
            meta,
            (depth - 1) as nat,
            0,
            target,
        ),
        Some(Decoded::Leaf(_)) => id == target,
    }
}

/// Whether the block `target` is reached from one of the entries of `dir`
/// from entry `from` on.
pub open spec fn children_hold(
    blockdb: BlockDb,
    catalog: Catalog,
    dir: Dir,
    depth: nat,
    from: nat,
    target: Seq<u8>,
) -> bool
    decreases depth, 1 + dir.children@.len() - from,
{
    from < dir.children@.len() && {
        let child = dir.children@[from as int];
        ||| holds(blockdb, catalog, child.blockref, child._type, depth, target)
        ||| children_hold(blockdb, catalog, dir, depth, from + 1, target)
    }
}

/// The block that the store holds under an id has that id.
pub proof fn lemma_block_has_its_id(blockdb: BlockDb, id: Seq<u8>)
    requires
        blockdb.has(id),
    ensures
        blockdb.block(id).id_spec() == id,
{
    let i = choose|i: int|
        0 <= i < blockdb.blocks_spec().len() && (#[trigger] blockdb.blocks_spec()[i]).id_spec()
            == id;
    assert(blockdb.blocks_spec()[i].id_spec() == id);
}

/// A walk over the leaves of a file list that looks for the block `target`
/// ends with a kind exactly where one of them is `target`, in full and
/// known, and then something is known of `target`.
pub proof fn lemma_resolve_walk_parts(
    target: BlockId,
    blockdb: BlockDb,
    catalog: Catalog,
    meta: Meta,
    path: Seq<String>,
    depth: nat,
    from: nat,
)
    ensures
        ({
            let w = walk_parts::<BlockType, ResolveBlockVisitor>(
                target,
                blockdb,
                catalog,
                meta,
                path,
                depth,
                from,
            );
            &&& w.0 == target
            &&& w.1.is_some() == parts_hold(blockdb, catalog, meta, depth, from, target@)
            &&& w.1.is_some() ==> catalog.lookup(target@).is_some()
        }),
    decreases meta.blocks@.len() - from,
{
    if from < meta.blocks@.len() {
        let id = meta.blocks@[from as int].blockid@;
        if blockdb.has(id) {
            lemma_block_has_its_id(blockdb, id);
        }
        lemma_resolve_walk_parts(target, blockdb, catalog, meta, path, depth, from + 1);
    }
}

/// A walk that looks for the block `target` ends with a kind exactly where
/// `target` is reached, and then something is known of `target`.
pub proof fn lemma_resolve_walk(
    target: BlockId,
    blockdb: BlockDb,
    catalog: Catalog,
    bref: BlockRef,
    kind: BlockType,
    path: Seq<String>,
    depth: nat,
)
    ensures
        ({
            let w = walk::<BlockType, ResolveBlockVisitor>(
                target,
                blockdb,
                catalog,
                bref,
                kind,
                path,
                depth,
            );
            &&& w.0 == target
            &&& w.1.is_some() == holds(blockdb, catalog, bref, kind, depth, target@)
            &&& w.1.is_some() ==> catalog.lookup(target@).is_some()
        }),
    decreases depth, 0nat,
{
    let id = bref.blockid@;
    if blockdb.has(id) {
        lemma_block_has_its_id(blockdb, id);
        match blockdb.block(id) {
            Block::Partial(_) => {},
            Block::Full(_) => match readable(catalog, id, kind, depth) {
                Some(Decoded::Dir(dir)) => {
                    lemma_resolve_walk_children(
                        target,
                        blockdb,
                        catalog,
                        dir,
                        path,
                        (depth - 1) as nat,
                        0,
                    );
                },
                Some(Decoded::Meta(meta)) => {
                    lemma_resolve_walk_parts(
                        target,
                        blockdb,
                        catalog,
                        meta,
                        path,
                        (depth - 1) as nat,
                        0,
                    );
                },
                _ => {},
            },
        }
    }
}

/// The same for a walk over the entries of a directory.
pub proof fn lemma_resolve_walk_children(
    target: BlockId,
    blockdb: BlockDb,
    catalog: Catalog,
    dir: Dir,
    path: Seq<String>,
    depth: nat,
    from: nat,
)
    ensures
        ({
            let w = walk_children::<BlockType, ResolveBlockVisitor>(
                target,
                blockdb,
                catalog,
                dir,
                path,
                depth,
                from,
            );
            &&& w.0 == target
            &&& w.1.is_some() == children_hold(blockdb, catalog, dir, depth, from, target@)
            &&& w.1.is_some() ==> catalog.lookup(target@).is_some()
        }),
    decreases depth, 1 + dir.children@.len() - from,
{
    if from < dir.children@.len() {
        let child = dir.children@[from as int];
        lemma_resolve_walk(
            target,
            blockdb,
            catalog,
            child.blockref,
            child._type,
            path.push(child.name),
            depth,
        );
        lemma_resolve_walk_children(target, blockdb, catalog, dir, path, depth, from + 1);
    }
}

/// The root that a walk starts from: the pending one, or the one in force.
pub open spec fn chosen_root(blockdb: BlockDb, pending: bool) -> BlockRef {
    if pending {
        blockdb.pending_spec().unwrap()
    } else {
        blockdb.root_spec()
    }
}

fn choose_root(blockdb: &BlockDb, pending: bool) -> (r: &BlockRef)
    requires
        pending ==> blockdb.pending_spec().is_some(),
    ensures
        *r == chosen_root(*blockdb, pending),
{
    if pending {
        match blockdb.pending_root() {
            Some(p) => p,
            None => vstd::pervasive::unreached(),
        }
    } else {
        blockdb.root()
    }
}

/// The content of the block `blockid`, where that block is reached from the
/// chosen root: through the entries of directories and the leaves of file
/// lists, each in the store in full and with known content.
pub fn resolve<'a>(
    blockdb: &BlockDb,
    catalog: &'a Catalog,
    blockid: BlockId,
    pending: bool,
) -> (r: Option<&'a Decoded>)
    requires
        blockdb.wf(),
        pending ==> blockdb.pending_spec().is_some(),
    ensures
        r.is_some() == holds(
            *blockdb,
            *catalog,
            chosen_root(*blockdb, pending),
            BlockType::Directory,
            blockdb.blocks_spec().len(),
            blockid@,
        ),
        r matches Some(d) ==> catalog.lookup(blockid@) == Some(*d),
{
    let root: &BlockRef = choose_root(blockdb, pending);
    let mut visitor = ResolveBlockVisitor(blockid);
    proof {
        lemma_resolve_walk(
            blockid,
            *blockdb,
            *catalog,
            *root,
            BlockType::Directory,
            Seq::<String>::empty(),
            blockdb.blocks_spec().len(),
        );
    }
    match traverse(blockdb, catalog, root, &mut visitor) {
        Some(_) => catalog.get(&blockid),
        None => None,
    }
}

/// Whether the tree below the chosen root is all there: no block that is
/// reached from it, through the entries of directories and the leaves of
/// file lists, is missing, partial or unreadable.
pub fn verify(blockdb: &BlockDb, catalog: &Catalog, pending: bool) -> (r: bool)
    requires
        blockdb.wf(),
        pending ==> blockdb.pending_spec().is_some(),
    ensures
        r == intact(
            *blockdb,
            *catalog,
            chosen_root(*blockdb, pending),
            BlockType::Directory,
            blockdb.blocks_spec().len(),
        ),
{
    let root: &BlockRef = choose_root(blockdb, pending);
    let mut visitor = VerifyVisitor;
    proof {
        lemma_verify_walk(
            *blockdb,
            *catalog,
            *root,
            BlockType::Directory,
            Seq::<String>::empty(),
            blockdb.blocks_spec().len(),
        );
    }
    traverse(blockdb, catalog, root, &mut visitor).is_none()
}

/// One step of writing a tree out to a file system.
#[derive(Debug, PartialEq, Eq)]
pub enum FsOp {
    /// Create the directory at this path.
    CreateDir(Vec<String>),
    /// Create the file at this path with these bytes.
    WriteFile(Vec<String>, Vec<u8>),
}

/// What a step says.
pub enum FsStep {
    CreateDir(Seq<String>),
    WriteFile(Seq<String>, Seq<u8>),
}

impl View for FsOp {
    type V = FsStep;

    open spec fn view(&self) -> FsStep {
        match self {
            FsOp::CreateDir(path) => FsStep::CreateDir(path@),
            FsOp::WriteFile(path, data) => FsStep::WriteFile(path@, data@),
        }
    }
}

/// What a list of steps says.
pub open spec fn steps(ops: Seq<FsOp>) -> Seq<FsStep> {
    ops.map_values(|op: FsOp| op@)
}

/// Why a tree cannot be written out.
#[derive(Debug, Clone, Copy, PartialEq, Eq)]
pub enum TreeError {
    /// A block of the tree is not in the store.
    Missing,
    /// Chunks of a block of the tree are still missing.
    Partial,
    /// A block of the tree cannot be read as what its reference says, or a
    /// leaf that a file list names is not there in full, with known content.
    Unreadable,
}

/// The bytes of the leaf that `bref` names, where the store has the block in
/// full and its content is known to be a leaf.
pub open spec fn leaf_data(blockdb: BlockDb, catalog: Catalog, bref: BlockRef) -> Option<Seq<u8>> {
    let id = bref.blockid@;
    if blockdb.has(id) && blockdb.block(id) is Full {
        match catalog.lookup(id) {
            Some(Decoded::Leaf(leaf)) => Some(leaf.data@),
            _ => None,
        }
    } else {
        None
    }
}

/// The bytes of the file whose leaves `blocks` names from place `from` on:
/// the bytes of the leaves one after the other, where all of them are there.
pub open spec fn file_content(
    blockdb: BlockDb,
    catalog: Catalog,
    blocks: Seq<BlockRef>,
    from: nat,
) -> Option<Seq<u8>>
    decreases blocks.len() - from,
{
    if from >= blocks.len() {
        Some(Seq::empty())
    } else {
        match leaf_data(blockdb, catalog, blocks[from as int]) {
            None => None,
            Some(head) => match file_content(blockdb, catalog, blocks, from + 1) {
                None => None,
                Some(rest) => Some(head + rest),
            },
        }
    }
}

/// A copy of `path`.
fn clone_path(path: &Vec<String>) -> (r: Vec<String>)
    ensures
        r@ == path@,
{
    let mut r: Vec<String> = Vec::new();
    let mut i: usize = 0;
    while i < path.len()
        invariant
            i <= path@.len(),
            r@ == path@.subrange(0, i as int),
        decreases path@.len() - i,
    {
        r.push(path[i].clone());
        proof {
            assert(r@ =~= path@.subrange(0, i + 1));
        }
        i += 1;
    }
    proof {
        assert(r@ =~= path@);
    }
    r
}

/// Notes the steps that write the tree out: a directory is created before
/// what lies in it, and the root itself is taken to be there.
pub struct PlanVisitor {
    ops: Vec<FsOp>,
}

impl PlanVisitor {
    /// A visitor that has noted no step.
    pub fn new() -> (r: PlanVisitor)
        ensures
            r.state() == Seq::<FsStep>::empty(),
    {
        let r = PlanVisitor { ops: Vec::new() };
        proof {
            assert(steps(r.ops@) =~= Seq::<FsStep>::empty());
        }
        r
    }

    /// The steps noted.
    pub fn into_ops(self) -> (r: Vec<FsOp>)
        ensures
            steps(r@) == self.state(),
    {
        self.ops
    }

    fn note(&mut self, op: FsOp)
        ensures
            final(self).state() == old(self).state().push(op@),
    {
        self.ops.push(op);
        proof {
            assert(steps(self.ops@) =~= steps(old(self).ops@).push(op@));
        }
    }
}

impl Visitor<TreeError> for PlanVisitor {
    type State = Seq<FsStep>;

    closed spec fn state(&self) -> Seq<FsStep> {
        steps(self.ops@)
    }

    open spec fn dir_spec(state: Seq<FsStep>, path: Seq<String>, block: Full, dir: Dir) -> (
        Seq<FsStep>,
        Option<TreeError>,
    ) {
        if path.len() == 0 {
            (state, None)
        } else {
            (state.push(FsStep::CreateDir(path)), None)
        }
    }

    open spec fn meta_spec(
        state: Seq<FsStep>,
        blockdb: BlockDb,
        catalog: Catalog,
        path: Seq<String>,
        block: Full,
        meta: Meta,
    ) -> (Seq<FsStep>, Option<TreeError>) {
        match file_content(blockdb, catalog, meta.blocks@, 0) {
            Some(content) => (state.push(FsStep::WriteFile(path, content)), None),
            None => (state, Some(TreeError::Unreadable)),
        }
    }

    open spec fn leaf_spec(state: Seq<FsStep>, path: Seq<String>, block: Full, leaf: Leaf) -> (
        Seq<FsStep>,
        Option<TreeError>,
    ) {
        (state.push(FsStep::WriteFile(path, leaf.data@)), None)
    }

    open spec fn part_spec(state: Seq<FsStep>, path: Seq<String>, block: Full, leaf: Leaf) -> (
        Seq<FsStep>,
        Option<TreeError>,
    ) {
        (state, None)
    }

    open spec fn partial_spec(state: Seq<FsStep>, path: Seq<String>, block: Partial) -> (
        Seq<FsStep>,
        Option<TreeError>,
    ) {
        (state, Some(TreeError::Partial))
    }

    open spec fn missing_spec(state: Seq<FsStep>, path: Seq<String>, blockid: BlockId) -> (
        Seq<FsStep>,
        Option<TreeError>,
    ) {
        (state, Some(TreeError::Missing))
    }

    open spec fn unreadable_spec(state: Seq<FsStep>, path: Seq<String>, block: Full) -> (
        Seq<FsStep>,
        Option<TreeError>,
    ) {
        (state, Some(TreeError::Unreadable))
    }

    fn visit_dir(&mut self, path: &Vec<String>, block: &Full, dir: &Dir) -> (r: Option<TreeError>) {
        if path.len() > 0 {
            self.note(FsOp::CreateDir(clone_path(path)));
        }
        None
    }

    fn visit_meta(
        &mut self,
        blockdb: &BlockDb,
        catalog: &Catalog,
        path: &Vec<String>,
        block: &Full,
        meta: &Meta,
    ) -> (r: Option<TreeError>) {
        let mut content: Vec<u8> = Vec::new();
        let n: usize = meta.blocks.len();
        let mut i: usize = n;
        while i > 0
            invariant
                blockdb.wf(),
                i <= n == meta.blocks@.len(),
                file_content(*blockdb, *catalog, meta.blocks@, i as nat) == Some(content@),
            decreases i,
        {
            i -= 1;
            let bref: &BlockRef = &meta.blocks[i];
            if !blockdb.contains(bref.blockid) {
                proof {
                    lemma_file_content_none(*blockdb, *catalog, meta.blocks@, i as nat, 0);
                }
                return Some(TreeError::Unreadable);
            }
            let is_full: bool = match blockdb.get(bref.blockid) {
                Block::Full(_) => true,
                Block::Partial(_) => false,
            };
            let leaf: Option<&Leaf> = match catalog.get(&bref.blockid) {
                Some(Decoded::Leaf(leaf)) => Some(leaf),
                _ => None,
            };
            if !is_full || leaf.is_none() {
                proof {
                    lemma_file_content_none(*blockdb, *catalog, meta.blocks@, i as nat, 0);
                }
                return Some(TreeError::Unreadable);
            }
            let mut joined: Vec<u8> = copy_range(
                leaf.unwrap().data.as_slice(),
                0,
                leaf.unwrap().data.len(),
            );
            proof {
                assert(joined@ =~= leaf.unwrap().data@);
            }
            append(&mut joined, content.as_slice());
            content = joined;
        }
        self.note(FsOp::WriteFile(clone_path(path), content));
        None
    }

    fn visit_leaf(&mut self, path: &Vec<String>, block: &Full, leaf: &Leaf) -> (r: Option<
        TreeError,
    >) {
        let data: Vec<u8> = copy_range(leaf.data.as_slice(), 0, leaf.data.len());
        proof {
            assert(data@ =~= leaf.data@);
        }
        self.note(FsOp::WriteFile(clone_path(path), data));
        None
    }

    fn visit_part(&mut self, path: &Vec<String>, block: &Full, leaf: &Leaf) -> (r: Option<
        TreeError,
    >) {
        None
    }

    fn visit_partial(&mut self, path: &Vec<String>, block: &Partial) -> (r: Option<TreeError>) {
        Some(TreeError::Partial)
    }

    fn visit_missing(&mut self, path: &Vec<String>, blockid: BlockId) -> (r: Option<TreeError>) {
        Some(TreeError::Missing)
    }

    fn visit_unreadable(&mut self, path: &Vec<String>, block: &Full) -> (r: Option<TreeError>) {
        Some(TreeError::Unreadable)
    }
}

/// Where a leaf of a file is not there, the file has no content.
pub proof fn lemma_file_content_none(
    blockdb: BlockDb,
    catalog: Catalog,
    blocks: Seq<BlockRef>,
    at: nat,
    from: nat,
)
    requires
        from <= at < blocks.len(),
        leaf_data(blockdb, catalog, blocks[at as int]).is_none(),
    ensures
        file_content(blockdb, catalog, blocks, from).is_none(),
    decreases at - from,
{
    if from < at {
        lemma_file_content_none(blockdb, catalog, blocks, at, from + 1);
    }
}

/// A view of the tree that a store holds.
#[derive(Debug)]
pub struct Frontend<'a> {
    blockdb: &'a BlockDb,
    catalog: &'a Catalog,
}

impl<'a> Frontend<'a> {
    /// The store that is looked at.
    pub closed spec fn blockdb_spec(&self) -> BlockDb {
        *self.blockdb
    }

    /// The known content of its blocks.
    pub closed spec fn catalog_spec(&self) -> Catalog {
        *self.catalog
    }

    /// A view of the tree in `blockdb`, with `catalog` as the known content
    /// of its blocks.
    pub fn from_blockdb(blockdb: &'a BlockDb, catalog: &'a Catalog) -> (r: Frontend<'a>)
        ensures
            r.blockdb_spec() == *blockdb,
            r.catalog_spec() == *catalog,
    {
        Frontend { blockdb, catalog }
    }

    /// The steps that write the tree under the root in force out into an
    /// empty directory, in the order of a walk, or the reason why the tree
    /// cannot be written out.
    pub fn write_to_dir(&self) -> (r: Result<Vec<FsOp>, TreeError>)
        requires
            self.blockdb_spec().wf(),
        ensures
            match r {
                Ok(ops) => written_out(self.blockdb_spec(), self.catalog_spec(), false) == (
                    steps(ops@),
                    None::<TreeError>,
                ),
                Err(e) => written_out(self.blockdb_spec(), self.catalog_spec(), false).1 == Some(e),
            },
    {
        self.plan(false)
    }

    /// The steps that write the tree under the chosen root out: the pending
    /// root, or the root in force.
    pub fn plan(&self, pending: bool) -> (r: Result<Vec<FsOp>, TreeError>)
        requires
            self.blockdb_spec().wf(),
            pending ==> self.blockdb_spec().pending_spec().is_some(),
        ensures
            match r {
                Ok(ops) => written_out(self.blockdb_spec(), self.catalog_spec(), pending) == (
                    steps(ops@),
                    None::<TreeError>,
                ),
                Err(e) => written_out(self.blockdb_spec(), self.catalog_spec(), pending).1 == Some(
                    e,
                ),
            },
    {
        let mut visitor = PlanVisitor::new();
        let root: &BlockRef = choose_root(self.blockdb, pending);
        match traverse(self.blockdb, self.catalog, root, &mut visitor) {
            Some(e) => Err(e),
            None => Ok(visitor.into_ops()),
        }
    }
}

/// The walk that notes the steps to write out the tree under the chosen
/// root: the steps noted, and the reason that ended the walk, if one did.
pub open spec fn written_out(blockdb: BlockDb, catalog: Catalog, pending: bool) -> (
    Seq<FsStep>,
    Option<TreeError>,
) {
    walk::<TreeError, PlanVisitor>(
        Seq::<FsStep>::empty(),
        blockdb,
        catalog,
        chosen_root(blockdb, pending),
        BlockType::Directory,
        Seq::<String>::empty(),
        blockdb.blocks_spec().len(),
    )
}

/// Where the leaves that a file list names are all there, the file has its
/// content, and the walk that notes the steps passes them without a step
/// and without an end.
pub proof fn lemma_intact_parts_written(
    state: Seq<FsStep>,
    blockdb: BlockDb,
    catalog: Catalog,
    meta: Meta,
    path: Seq<String>,
    depth: nat,
    from: nat,
)
    requires
        intact_parts(blockdb, catalog, meta, depth, from),
    ensures
        file_content(blockdb, catalog, meta.blocks@, from).is_some(),
        walk_parts::<TreeError, PlanVisitor>(state, blockdb, catalog, meta, path, depth, from) == (
            state,
            None::<TreeError>,
        ),
    decreases meta.blocks@.len() - from,
{
    if from < meta.blocks@.len() {
        lemma_intact_parts_written(state, blockdb, catalog, meta, path, depth, from + 1);
    }
}

/// A tree that is all there can be written out: the walk that notes the
/// steps does not end early.
pub proof fn lemma_intact_written(
    state: Seq<FsStep>,
    blockdb: BlockDb,
    catalog: Catalog,
    bref: BlockRef,
    kind: BlockType,
    path: Seq<String>,
    depth: nat,
)
    requires
        intact(blockdb, catalog, bref, kind, depth),
    ensures
        walk::<TreeError, PlanVisitor>(state, blockdb, catalog, bref, kind, path, depth).1.is_none(),
    decreases depth, 0nat,
{
    let id = bref.blockid@;
    match blockdb.block(id) {
        Block::Partial(_) => {},
        Block::Full(full) => match readable(catalog, id, kind, depth) {
            Some(Decoded::Dir(dir)) => {
                let after = PlanVisitor::dir_spec(state, path, full, dir).0;
                lemma_intact_written_children(
                    after,
                    blockdb,
                    catalog,
                    dir,
                    path,
                    (depth - 1) as nat,
                    0,
                );
            },
            Some(Decoded::Meta(meta)) => {
                lemma_intact_parts_written(
                    state,
                    blockdb,
                    catalog,
                    meta,
                    path,
                    (depth - 1) as nat,
                    0,
                );
                let after = PlanVisitor::meta_spec(state, blockdb, catalog, path, full, meta).0;
                lemma_intact_parts_written(
                    after,
                    blockdb,
                    catalog,
                    meta,
                    path,
                    (depth - 1) as nat,
                    0,
                );
            },
            _ => {},
        },
    }
}

/// The same for the entries of a directory.
pub proof fn lemma_intact_written_children(
    state: Seq<FsStep>,
    blockdb: BlockDb,
    catalog: Catalog,
    dir: Dir,
    path: Seq<String>,
    depth: nat,
    from: nat,
)
    requires
        intact_children(blockdb, catalog, dir, depth, from),
    ensures
        walk_children::<TreeError, PlanVisitor>(
            state,
            blockdb,
            catalog,
            dir,
            path,
            depth,
            from,
        ).1.is_none(),
    decreases depth, 1 + dir.children@.len() - from,
{
    if from < dir.children@.len() {
        let child = dir.children@[from as int];
        lemma_intact_written(
            state,
            blockdb,
            catalog,
            child.blockref,
            child._type,
            path.push(child.name),
            depth,
        );
        let after = walk::<TreeError, PlanVisitor>(
            state,
            blockdb,
            catalog,
            child.blockref,
            child._type,
            path.push(child.name),
            depth,
        ).0;
        lemma_intact_written_children(after, blockdb, catalog, dir, path, depth, from + 1);
    }
}

/// The block with the bytes `sealed`, which were encrypted with `key`, under
/// the digest of the bytes as its id, and the key.
pub fn to_block(key: Key, sealed: Vec<u8>) -> (r: (Key, Block))
    ensures
        r.0 == key,
        r.1 is Full,
        r.1.data_spec() == sealed@,
        r.1.id_spec() == keccak256(sealed@),
{
    (key, Block::Full(Full::new(sealed)))
}

/// A path as what its components spell.
pub open spec fn path_view(path: Seq<String>) -> Seq<Seq<char>> {
    path.map_values(|s: String| s@)
}

/// Whether two paths spell the same.
fn same_path(a: &Vec<String>, b: &Vec<String>) -> (r: bool)
    ensures
        r == (path_view(a@) == path_view(b@)),
{
    if a.len() != b.len() {
        assert(path_view(a@).len() != path_view(b@).len());
        return false;
    }
    let mut i: usize = 0;
    while i < a.len()
        invariant
            i <= a@.len(),
            a@.len() == b@.len(),
            forall|j: int| 0 <= j < i ==> a@[j]@ == b@[j]@,
        decreases a@.len() - i,
    {
        if !(a[i] == b[i]) {
            assert(path_view(a@)[i as int] != path_view(b@)[i as int]);
            return false;
        }
        i += 1;
    }
    assert(path_view(a@) =~= path_view(b@));
    true
}

/// The entries that were collected so far for the directory at `path`.
#[derive(Debug)]
pub struct OpenDir {
    pub path: Vec<String>,
    pub children: Vec<Child>,
}

/// The place of the first of `dirs`, from place `from` on, whose path spells
/// `path`.
pub open spec fn find_dir(dirs: Seq<OpenDir>, path: Seq<Seq<char>>, from: int) -> Option<int>
    decreases dirs.len() - from,
{
    if from < 0 || from >= dirs.len() {
        None
    } else if path_view(dirs[from].path@) == path {
        Some(from)
    } else {
        find_dir(dirs, path, from + 1)
    }
}

/// What `find_dir` finds is a place of `dirs` with that path, and the first
/// such from `from` on.
pub proof fn lemma_find_dir(dirs: Seq<OpenDir>, path: Seq<Seq<char>>, from: int)
    requires
        0 <= from,
    ensures
        match find_dir(dirs, path, from) {
            Some(i) => from <= i < dirs.len() && path_view(dirs[i].path@) == path && forall|j: int|
                from <= j < i ==> path_view((#[trigger] dirs[j]).path@) != path,
            None => forall|j: int|
                from <= j < dirs.len() ==> path_view((#[trigger] dirs[j]).path@) != path,
        },
    decreases dirs.len() - from,
{
    if from < dirs.len() && path_view(dirs[from].path@) != path {
        lemma_find_dir(dirs, path, from + 1);
    }
}

/// The place that holds the first directory with the path `path`, given as
/// the place `i` with that path before which no place has it.
pub proof fn lemma_find_dir_is(dirs: Seq<OpenDir>, path: Seq<Seq<char>>, from: int, i: int)
    requires
        0 <= from <= i < dirs.len(),
        path_view(dirs[i].path@) == path,
        forall|j: int| from <= j < i ==> path_view((#[trigger] dirs[j]).path@) != path,
    ensures
        find_dir(dirs, path, from) == Some(i),
    decreases i - from,
{
    if from < i {
        assert(path_view(dirs[from].path@) != path);
        lemma_find_dir_is(dirs, path, from + 1, i);
    }
}

/// No directory from `from` on has the path `path`.
pub proof fn lemma_find_dir_none(dirs: Seq<OpenDir>, path: Seq<Seq<char>>, from: int)
    requires
        0 <= from,
        forall|j: int| from <= j < dirs.len() ==> path_view((#[trigger] dirs[j]).path@) != path,
    ensures
        find_dir(dirs, path, from).is_none(),
    decreases dirs.len() - from,
{
    if from < dirs.len() {
        assert(path_view(dirs[from].path@) != path);
        lemma_find_dir_none(dirs, path, from + 1);
    }
}

/// The entries collected for the directory whose path spells `path`.
pub open spec fn children_in(dirs: Seq<OpenDir>, path: Seq<Seq<char>>) -> Seq<Child> {
    match find_dir(dirs, path, 0) {
        Some(i) => dirs[i].children@,
        None => Seq::empty(),
    }
}

/// Builds the blocks of a directory tree from its files and directories,
/// each handed over after what lies in it, with its sealed bytes.
#[derive(Debug)]
pub struct Builder {
    open: Vec<OpenDir>,
    blocks: Vec<Block>,
    catalog: Catalog,
    root: Option<BlockRef>,
}

impl Builder {
    /// The directories of which entries were collected and which were not
    /// handed over themselves yet.
    pub closed spec fn dirs(&self) -> Seq<OpenDir> {
        self.open@
    }

    /// The blocks built so far.
    pub closed spec fn blocks_spec(&self) -> Seq<Block> {
        self.blocks@
    }

    /// The content of the blocks built so far.
    pub closed spec fn catalog_spec(&self) -> Catalog {
        self.catalog
    }

    /// The reference to the top directory, once it was handed over.
    pub closed spec fn root_spec(&self) -> Option<BlockRef> {
        self.root
    }

    /// A builder that has seen nothing.
    pub fn new() -> (r: Builder)
        ensures
            r.dirs().len() == 0,
            r.blocks_spec().len() == 0,
            r.catalog_spec().entries_spec().len() == 0,
            r.root_spec().is_none(),
    {
        Builder { open: Vec::new(), blocks: Vec::new(), catalog: Catalog::new(), root: None }
    }

    /// The place of the open directory whose path spells that of `path`.
    fn position(&self, path: &Vec<String>) -> (r: Option<usize>)
        ensures
            match r {
                Some(i) => find_dir(self.dirs(), path_view(path@), 0) == Some(i as int) && i
                    < self.dirs().len(),
                None => find_dir(self.dirs(), path_view(path@), 0).is_none(),
            },
    {
        let mut i: usize = 0;
        while i < self.open.len()
            invariant
                i <= self.open@.len(),
                forall|j: int|
                    0 <= j < i ==> path_view((#[trigger] self.open@[j]).path@) != path_view(path@),
            decreases self.open@.len() - i,
        {
            if same_path(&self.open[i].path, path) {
                proof {
                    lemma_find_dir_is(self.open@, path_view(path@), 0, i as int);
                }
                return Some(i);
            }
            i += 1;
        }
        proof {
            lemma_find_dir_none(self.open@, path_view(path@), 0);
        }
        None
    }

    /// Notes `child` as an entry of the directory at `parent`.
    fn note_child(&mut self, parent: &Vec<String>, child: Child)
        ensures
            final(self).blocks_spec() == old(self).blocks_spec(),
            final(self).catalog_spec() == old(self).catalog_spec(),
            final(self).root_spec() == old(self).root_spec(),
            children_in(final(self).dirs(), path_view(parent@)) == children_in(
                old(self).dirs(),
                path_view(parent@),
            ).push(child),
            forall|other: Seq<Seq<char>>|
                other != path_view(parent@) ==> children_in(final(self).dirs(), other)
                    == children_in(old(self).dirs(), other),
    {
        let ghost before = self.open@;
        let ghost target = path_view(parent@);
        match self.position(parent) {
            Some(i) => {
                self.open[i].children.push(child);
                proof {
                    let after = self.open@;
                    assert(after.len() == before.len());
                    assert forall|j: int| 0 <= j < after.len() implies (#[trigger] after[j]).path
                        == before[j].path by {}
                    lemma_find_dir(before, target, 0);
                    lemma_find_dir_is(after, target, 0, i as int);
                    assert forall|other: Seq<Seq<char>>| other != target implies children_in(
                        after,
                        other,
                    ) == children_in(before, other) by {
                        lemma_find_dir(before, other, 0);
                        match find_dir(before, other, 0) {
                            Some(k) => {
                                lemma_find_dir_is(after, other, 0, k);
                            },
                            None => {
                                lemma_find_dir_none(after, other, 0);
                            },
                        }
                    }
                }
            },
            None => {
                let mut children: Vec<Child> = Vec::new();
                children.push(child);
                self.open.push(OpenDir { path: clone_path(parent), children });
                proof {
                    let after = self.open@;
                    let n = before.len() as int;
                    lemma_find_dir(before, target, 0);
                    lemma_find_dir_is(after, target, 0, n);
                    assert(children@ =~= Seq::<Child>::empty().push(child));
                    assert forall|other: Seq<Seq<char>>| other != target implies children_in(
                        after,
                        other,
                    ) == children_in(before, other) by {
                        lemma_find_dir(before, other, 0);
                        match find_dir(before, other, 0) {
                            Some(k) => {
                                lemma_find_dir_is(after, other, 0, k);
                            },
                            None => {
                                lemma_find_dir_none(after, other, 0);
                            },
                        }
                    }
                }
            },
        }
    }

    /// Takes in the file `name` of the directory at `parent`: `data` is its
    /// content, `sealed` the bytes of its block, encrypted with `key`. The
    /// block is built, its content noted, and the file becomes the last
    /// entry of its directory.
    pub fn add_file(
        &mut self,
        parent: &Vec<String>,
        name: String,
        key: Key,
        sealed: Vec<u8>,
        data: Vec<u8>,
    )
        ensures
            final(self).root_spec() == old(self).root_spec(),
            block_added(old(self).blocks_spec(), final(self).blocks_spec(), sealed@),
            noted(
                old(self).catalog_spec(),
                final(self).catalog_spec(),
                keccak256(sealed@),
                Decoded::Leaf(Leaf { data }),
            ),
            child_added(
                children_in(old(self).dirs(), path_view(parent@)),
                children_in(final(self).dirs(), path_view(parent@)),
                name,
                BlockType::Leaf,
                keccak256(sealed@),
                key,
            ),
            forall|other: Seq<Seq<char>>|
                other != path_view(parent@) ==> children_in(final(self).dirs(), other)
                    == children_in(old(self).dirs(), other),
    {
        let (key, block) = to_block(key, sealed);
        let id: BlockId = block.id();
        self.blocks.push(block);
        self.catalog.insert(id, Decoded::Leaf(Leaf { data }));
        let child = Child {
            name,
            metadata: (),
            _type: BlockType::Leaf,
            blockref: BlockRef::new(id, key, Vec::new()),
        };
        self.note_child(parent, child);
        proof {
            let n = old(self).blocks@.len() as int;
            assert(self.blocks@.subrange(0, n) =~= old(self).blocks@);
            let before = children_in(old(self).dirs(), path_view(parent@));
            assert(before.push(child).subrange(0, before.len() as int) =~= before);
        }
    }

    /// Hands out the directory at `path` with the entries collected for it,
    /// in the order in which they came, and forgets them.
    pub fn take_dir(&mut self, path: &Vec<String>) -> (r: Dir)
        ensures
            r.children@ == children_in(old(self).dirs(), path_view(path@)),
            final(self).blocks_spec() == old(self).blocks_spec(),
            final(self).catalog_spec() == old(self).catalog_spec(),
            final(self).root_spec() == old(self).root_spec(),
            final(self).dirs() == match find_dir(old(self).dirs(), path_view(path@), 0) {
                Some(i) => old(self).dirs().remove(i),
                None => old(self).dirs(),
            },
    {
        match self.position(path) {
            Some(i) => {
                let dir: OpenDir = self.open.remove(i);
                Dir { children: dir.children }
            },
            None => Dir { children: Vec::new() },
        }
    }

    /// Takes in the directory `dir`, whose block has the bytes `sealed`,
    /// encrypted with `key`. The block is built and its content noted. With
    /// a parent, the directory becomes the last entry `name` of the
    /// directory at `parent`; without one, it is the top directory and its
    /// reference becomes the root.
    pub fn add_dir(
        &mut self,
        parent: Option<&Vec<String>>,
        name: String,
        key: Key,
        sealed: Vec<u8>,
        dir: Dir,
    )
        ensures
            block_added(old(self).blocks_spec(), final(self).blocks_spec(), sealed@),
            noted(
                old(self).catalog_spec(),
                final(self).catalog_spec(),
                keccak256(sealed@),
                Decoded::Dir(dir),
            ),
            match parent {
                Some(p) => {
                    &&& final(self).root_spec() == old(self).root_spec()
                    &&& child_added(
                        children_in(old(self).dirs(), path_view(p@)),
                        children_in(final(self).dirs(), path_view(p@)),
                        name,
                        BlockType::Directory,
                        keccak256(sealed@),
                        key,
                    )
                    &&& forall|other: Seq<Seq<char>>|
                        other != path_view(p@) ==> children_in(final(self).dirs(), other)
                            == children_in(old(self).dirs(), other)
                },
                None => {
                    &&& final(self).dirs() == old(self).dirs()
                    &&& final(self).root_spec().is_some()
                    &&& final(self).root_spec().unwrap().blockid@ == keccak256(sealed@)
                    &&& final(self).root_spec().unwrap().key == key
                    &&& final(self).root_spec().unwrap().hints@.len() == 0
                },
            },
    {
        let (key, block) = to_block(key, sealed);
        let id: BlockId = block.id();
        self.blocks.push(block);
        self.catalog.insert(id, Decoded::Dir(dir));
        let blockref: BlockRef = BlockRef::new(id, key, Vec::new());
        proof {
            let n = old(self).blocks@.len() as int;
            assert(self.blocks@.subrange(0, n) =~= old(self).blocks@);
        }
        match parent {
            Some(p) => {
                let child = Child { name, metadata: (), _type: BlockType::Directory, blockref };
                self.note_child(p, child);
                proof {
                    let before = children_in(old(self).dirs(), path_view(p@));
                    assert(before.push(child).subrange(0, before.len() as int) =~= before);
                }
            },
            None => {
                self.root = Some(blockref);
            },
        }
    }

    /// The store of the blocks built, with the top directory as its root,
    /// and the content of the blocks. There is none where no top directory
    /// was handed over.
    pub fn finish(self) -> (r: Option<(BlockDb, Catalog)>)
        ensures
            r.is_some() == self.root_spec().is_some(),
            r matches Some((db, catalog)) ==> {
                &&& db.wf()
                &&& db.root_spec() == self.root_spec().unwrap()
                &&& db.pending_spec().is_none()
                &&& db.blocks_spec() == crate::blockdb::first_wins(self.blocks_spec())
                &&& catalog == self.catalog_spec()
            },
    {
        match self.root {
            Some(root) => Some((BlockDb::new(root, self.blocks), self.catalog)),
            None => None,
        }
    }
}

/// `after` knows what `before` knows, and of the block `id` that it says
/// `decoded`, unless `before` knows something of that block.
pub open spec fn noted(before: Catalog, after: Catalog, id: Seq<u8>, decoded: Decoded) -> bool {
    forall|other: Seq<u8>|
        #[trigger] after.lookup(other) == if other == id && before.lookup(other).is_none() {
            Some(decoded)
        } else {
            before.lookup(other)
        }
}

/// `after` is `before` with one more block at the end: a full one with the
/// bytes `sealed`, under their digest as its id.
pub open spec fn block_added(before: Seq<Block>, after: Seq<Block>, sealed: Seq<u8>) -> bool {
    &&& after.len() == before.len() + 1
    &&& after.subrange(0, before.len() as int) == before
    &&& after.last() is Full
    &&& after.last().data_spec() == sealed
    &&& after.last().id_spec() == keccak256(sealed)
}

/// `after` is `before` with one more entry at the end: one with the name
/// `name`, of the kind `kind`, for the block `id` with the key `key`, without
/// hints.
pub open spec fn child_added(
    before: Seq<Child>,
    after: Seq<Child>,
    name: String,
    kind: BlockType,
    id: Seq<u8>,
    key: Key,
) -> bool {
    &&& after.len() == before.len() + 1
    &&& after.subrange(0, before.len() as int) == before
    &&& after.last().name == name
    &&& after.last()._type == kind
    &&& after.last().blockref.blockid@ == id
    &&& after.last().blockref.key == key
    &&& after.last().blockref.hints@.len() == 0
}

/// The key and the kind under which the first of `children`, from place
/// `from` on, names the block `id`.
pub open spec fn child_ref(children: Seq<Child>, id: Seq<u8>, from: int) -> Option<(Key, BlockType)>
    decreases children.len() - from,
{
    if from < 0 || from >= children.len() {
        None
    } else if children[from].blockref.blockid@ == id {
        Some((children[from].blockref.key, children[from]._type))
    } else {
        child_ref(children, id, from + 1)
    }
}

/// The key under which the first of `blocks`, from place `from` on, names
/// the block `id`, which is a leaf then.
pub open spec fn leaf_ref(blocks: Seq<BlockRef>, id: Seq<u8>, from: int) -> Option<(Key, BlockType)>
    decreases blocks.len() - from,
{
    if from < 0 || from >= blocks.len() {
        None
    } else if blocks[from].blockid@ == id {
        Some((blocks[from].key, BlockType::Leaf))
    } else {
        leaf_ref(blocks, id, from + 1)
    }
}

/// The key and the kind under which the content `decoded` names the block
/// `id`, where it does.
pub open spec fn named_in(decoded: Decoded, id: Seq<u8>) -> Option<(Key, BlockType)> {
    match decoded {
        Decoded::Dir(dir) => child_ref(dir.children@, id, 0),
        Decoded::Meta(meta) => leaf_ref(meta.blocks@, id, 0),
        Decoded::Leaf(_) => None,
    }
}

/// The key and the kind under which the first of `entries`, from place
/// `from` on, that names the block `id` does so.
pub open spec fn reference_in(entries: Seq<CatalogEntry>, id: Seq<u8>, from: int) -> Option<
    (Key, BlockType),
>
    decreases entries.len() - from,
{
    if from < 0 || from >= entries.len() {
        None
    } else if named_in(entries[from].decoded, id).is_some() {
        named_in(entries[from].decoded, id)
    } else {
        reference_in(entries, id, from + 1)
    }
}

/// The key and the kind under which `decoded` names the block `id`.
pub fn reference_within(decoded: &Decoded, id: &BlockId) -> (r: Option<(Key, BlockType)>)
    ensures
        r == named_in(*decoded, id@),
{
    match decoded {
        Decoded::Dir(dir) => {
            let mut i: usize = 0;
            while i < dir.children.len()
                invariant
                    i <= dir.children@.len(),
                    named_in(*decoded, id@) == child_ref(dir.children@, id@, 0),
                    child_ref(dir.children@, id@, 0) == child_ref(dir.children@, id@, i as int),
                decreases dir.children@.len() - i,
            {
                let child: &Child = &dir.children[i];
                if same_id(&child.blockref.blockid, id) {
                    return Some((child.blockref.key, child._type));
                }
                i += 1;
            }
            None
        },
        Decoded::Meta(meta) => {
            let mut i: usize = 0;
            while i < meta.blocks.len()
                invariant
                    i <= meta.blocks@.len(),
                    named_in(*decoded, id@) == leaf_ref(meta.blocks@, id@, 0),
                    leaf_ref(meta.blocks@, id@, 0) == leaf_ref(meta.blocks@, id@, i as int),
                decreases meta.blocks@.len() - i,
            {
                let bref: &BlockRef = &meta.blocks[i];
                if same_id(&bref.blockid, id) {
                    return Some((bref.key, BlockType::Leaf));
                }
                i += 1;
            }
            None
        },
        Decoded::Leaf(_) => None,
    }
}

impl Catalog {
    /// The key and the kind under which the known content names the block
    /// `id`: those of the first entry that names it.
    pub fn reference_to(&self, id: &BlockId) -> (r: Option<(Key, BlockType)>)
        ensures
            r == reference_in(self.entries_spec(), id@, 0),
    {
        let mut i: usize = 0;
        while i < self.entries.len()
            invariant
                i <= self.entries@.len(),
                reference_in(self.entries@, id@, 0) == reference_in(self.entries@, id@, i as int),
            decreases self.entries@.len() - i,
        {
            let found: Option<(Key, BlockType)> = reference_within(&self.entries[i].decoded, id);
            if found.is_some() {
                return found;
            }
            i += 1;
        }
        None
    }
}

} // verus!
