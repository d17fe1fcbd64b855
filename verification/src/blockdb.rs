//! The block store: blocks by the digest of their bytes, each partial while
//! its chunks arrive and full once its bytes are checked against its id, with
//! the current root and at most one pending root.

use crate::bytes::equal;
use vstd::prelude::*;

verus! {

/// The id of a block: the digest of its bytes.
pub type BlockId = [u8; 32];

/// The key that the content of a block is encrypted with.
pub type Key = [u8; 16];

/// The number of bytes of a block that one payload carries.
pub const CHUNK_SIZE: usize = 1450;

/// The Keccak-256 digest of `data`: 32 bytes.
pub uninterp spec fn keccak256(data: Seq<u8>) -> Seq<u8>;

/// `tiny_keccak::keccak256`: the Keccak-256 digest of `data`, which depends
/// on the bytes of `data` alone.
#[verifier::external_body]
fn digest(data: &[u8]) -> (r: BlockId)
    ensures
        r@ == keccak256(data@),
{
    tiny_keccak::keccak256(data)
}

/// The number of chunks that a block of `len` bytes is sent in.
pub open spec fn chunk_count(len: nat) -> nat {
    (len + CHUNK_SIZE - 1) as nat / (CHUNK_SIZE as nat)
}

/// The number of bytes of chunk `index` of a block of `len` bytes: a full
/// chunk, or what is left for the last one.
pub open spec fn chunk_len(len: nat, index: nat) -> nat {
    if (index + 1) * CHUNK_SIZE <= len {
        CHUNK_SIZE as nat
    } else {
        (len - index * CHUNK_SIZE) as nat
    }
}

/// What went wrong in the store.
#[derive(Debug, Clone, Copy, PartialEq, Eq)]
pub enum StoreError {
    /// The bytes of a block do not have the digest that its id names.
    DigestMismatch,
    /// A root is pending already.
    PendingBusy,
    /// A chunk lies outside its block, or is shorter than its place.
    BadChunk,
}

/// A block whose bytes are all there and have the digest that its id names.
#[derive(Debug)]
pub struct Full {
    id: BlockId,
    data: Vec<u8>,
}

impl Full {
    #[verifier::type_invariant]
    spec fn inv(&self) -> bool {
        keccak256(self.data@) == self.id@
    }

    /// The id of the block.
    pub closed spec fn id_spec(&self) -> Seq<u8> {
        self.id@
    }

    /// The bytes of the block.
    pub closed spec fn data_spec(&self) -> Seq<u8> {
        self.data@
    }

    /// The block with the bytes `data`, under the digest of `data` as its id.
    pub fn new(data: Vec<u8>) -> (r: Full)
        ensures
            r.data_spec() == data@,
            r.id_spec() == keccak256(data@),
    {
        let id: BlockId = digest(data.as_slice());
        Full { id, data }
    }

    /// The block with the id `id` and the bytes `data`, where `id` is the
    /// digest of `data`.
    pub fn from_parts(id: BlockId, data: Vec<u8>) -> (r: Result<Full, StoreError>)
        ensures
            match r {
                Ok(full) => keccak256(data@) == id@ && full.id_spec() == id@ && full.data_spec()
                    == data@,
                Err(e) => keccak256(data@) != id@ && e == StoreError::DigestMismatch,
            },
    {
        let actual: BlockId = digest(data.as_slice());
        if equal(actual.as_slice(), id.as_slice()) {
            Ok(Full { id, data })
        } else {
            Err(StoreError::DigestMismatch)
        }
    }

    /// The id of the block, which is the digest of its bytes.
    pub fn id(&self) -> (r: BlockId)
        ensures
            r@ == self.id_spec(),
            r@ == keccak256(self.data_spec()),
    {
        proof {
            use_type_invariant(self);
        }
        self.id
    }

    /// The bytes of the block, whose digest is its id.
    pub fn data(&self) -> (r: &Vec<u8>)
        ensures
            r@ == self.data_spec(),
            keccak256(r@) == self.id_spec(),
    {
        proof {
            use_type_invariant(self);
        }
        &self.data
    }
}

/// A block of which some chunks may still be missing.
#[derive(Debug)]
pub struct Partial {
    id: BlockId,
    data: Vec<u8>,
    available: Vec<bool>,
}

impl Partial {
    #[verifier::type_invariant]
    spec fn inv(&self) -> bool {
        self.available@.len() == chunk_count(self.data@.len())
    }

    /// The id that the block is to have.
    pub closed spec fn id_spec(&self) -> Seq<u8> {
        self.id@
    }

    /// The bytes of the block, zero where nothing has arrived.
    pub closed spec fn data_spec(&self) -> Seq<u8> {
        self.data@
    }

    /// Which chunks have arrived.
    pub closed spec fn available_spec(&self) -> Seq<bool> {
        self.available@
    }

    /// Whether every chunk has arrived.
    pub open spec fn complete(&self) -> bool {
        forall|i: int| 0 <= i < self.available_spec().len() ==> self.available_spec()[i]
    }

    /// A block of `len` bytes under the id `id`, of which no chunk has
    /// arrived.
    pub fn new(id: BlockId, len: usize) -> (r: Partial)
        requires
            len + CHUNK_SIZE <= usize::MAX,
        ensures
            r.id_spec() == id@,
            r.data_spec() == Seq::new(len as nat, |i: int| 0u8),
            r.available_spec() == Seq::new(chunk_count(len as nat), |i: int| false),
    {
        let chunks: usize = (len + CHUNK_SIZE - 1) / CHUNK_SIZE;
        let data: Vec<u8> = vec![0u8; len];
        let available: Vec<bool> = vec![false; chunks];
        proof {
            assert(data@ =~= Seq::new(len as nat, |i: int| 0u8));
            assert(available@ =~= Seq::new(chunk_count(len as nat), |i: int| false));
        }
        Partial { id, data, available }
    }

    /// The id that the block is to have.
    pub fn id(&self) -> (r: BlockId)
        ensures
            r@ == self.id_spec(),
    {
        self.id
    }

    /// The bytes of the block.
    pub fn data(&self) -> (r: &Vec<u8>)
        ensures
            r@ == self.data_spec(),
    {
        &self.data
    }

    /// Which chunks have arrived: one entry for each chunk of the block.
    pub fn available(&self) -> (r: &Vec<bool>)
        ensures
            r@ == self.available_spec(),
            r@.len() == chunk_count(self.data_spec().len()),
    {
        proof {
            use_type_invariant(self);
        }
        &self.available
    }

    /// Whether every chunk has arrived.
    pub fn is_complete(&self) -> (r: bool)
        ensures
            r == self.complete(),
    {
        let mut i: usize = 0;
        while i < self.available.len()
            invariant
                i <= self.available@.len(),
                forall|j: int| 0 <= j < i ==> self.available@[j],
            decreases self.available@.len() - i,
        {
            if !self.available[i] {
                assert(!self.available_spec()[i as int]);
                return false;
            }
            i += 1;
        }
        true
    }

    /// Whether a chunk of `len` bytes can be stored as chunk `index`.
    pub open spec fn fits(&self, index: u64, len: nat) -> bool {
        index < self.available_spec().len() && len >= chunk_len(
            self.data_spec().len(),
            index as nat,
        )
    }

    /// Whether a chunk of `len` bytes can be stored as chunk `index`: the
    /// block has such a chunk, and `len` is at least its length.
    pub fn accepts_chunk(&self, index: u64, len: usize) -> (r: bool)
        ensures
            r == self.fits(index, len as nat),
    {
        proof {
            use_type_invariant(self);
        }
        let size: usize = self.data.len();
        if index >= self.available.len() as u64 {
            return false;
        }
        let start: usize = index as usize * CHUNK_SIZE;
        let n: usize = if size - start >= CHUNK_SIZE {
            CHUNK_SIZE
        } else {
            size - start
        };
        len >= n
    }

    /// Stores chunk `index` of the block and marks it as arrived. The chunk
    /// is the start of `chunk`, as long as its place in the block; what
    /// `chunk` holds beyond that is left out. Where `index` names no chunk of
    /// the block or `chunk` is shorter than its place, nothing changes.
    pub fn write_chunk(&mut self, index: u64, chunk: &[u8]) -> (r: Result<(), StoreError>)
        ensures
            final(self).id_spec() == old(self).id_spec(),
            final(self).data_spec().len() == old(self).data_spec().len(),
            r.is_ok() <==> old(self).fits(index, chunk@.len()),
            r.is_err() ==> {
                &&& r == Err::<(), StoreError>(StoreError::BadChunk)
                &&& final(self).data_spec() == old(self).data_spec()
                &&& final(self).available_spec() == old(self).available_spec()
            },
            r.is_ok() ==> {
                &&& final(self).available_spec() == old(self).available_spec().update(
                    index as int,
                    true,
                )
                &&& final(self).data_spec() == written(old(self).data_spec(), index as nat, chunk@)
            },
    {
        proof {
            use_type_invariant(&*self);
        }
        let len: usize = self.data.len();
        if index >= self.available.len() as u64 {
            return Err(StoreError::BadChunk);
        }
        let idx: usize = index as usize;
        let start: usize = idx * CHUNK_SIZE;
        let n: usize = if len - start >= CHUNK_SIZE {
            CHUNK_SIZE
        } else {
            len - start
        };
        if chunk.len() < n {
            return Err(StoreError::BadChunk);
        }
        let mut i: usize = 0;
        while i < n
            invariant
                i <= n <= chunk@.len(),
                start + n <= len,
                len == self.data@.len(),
                old(self).data@.len() == len,
                self.inv(),
                self.id == old(self).id,
                self.available == old(self).available,
                forall|j: int|
                    0 <= j < len ==> self.data@[j] == if start <= j < start + i {
                        chunk@[j - start]
                    } else {
                        old(self).data@[j]
                    },
            decreases n - i,
        {
            self.data[start + i] = chunk[i];
            i += 1;
        }
        self.available[idx] = true;
        proof {
            assert(self.data@ =~= written(old(self).data@, index as nat, chunk@));
        }
        Ok(())
    }
}

/// The bytes `data` of a block with chunk `index` overwritten by the start of
/// `chunk`.
pub open spec fn written(data: Seq<u8>, index: nat, chunk: Seq<u8>) -> Seq<u8> {
    Seq::new(
        data.len(),
        |j: int|
            if index * CHUNK_SIZE <= j < index * CHUNK_SIZE + chunk_len(data.len(), index) {
                chunk[j - index * CHUNK_SIZE]
            } else {
                data[j]
            },
    )
}

/// A block of the store.
#[derive(Debug)]
pub enum Block {
    Partial(Partial),
    Full(Full),
}

impl Block {
    /// The id of the block.
    pub open spec fn id_spec(&self) -> Seq<u8> {
        match self {
            Block::Partial(p) => p.id_spec(),
            Block::Full(f) => f.id_spec(),
        }
    }

    /// The bytes of the block.
    pub open spec fn data_spec(&self) -> Seq<u8> {
        match self {
            Block::Partial(p) => p.data_spec(),
            Block::Full(f) => f.data_spec(),
        }
    }

    /// The id of the block.
    pub fn id(&self) -> (r: BlockId)
        ensures
            r@ == self.id_spec(),
    {
        match self {
            Block::Partial(p) => p.id(),
            Block::Full(f) => f.id(),
        }
    }

    /// The block as a full one.
    pub fn full(&self) -> (r: &Full)
        requires
            self is Full,
        ensures
            *self == Block::Full(*r),
    {
        match self {
            Block::Full(full) => full,
            Block::Partial(_) => vstd::pervasive::unreached(),
        }
    }

    /// The block as a partial one.
    pub fn partial(&self) -> (r: &Partial)
        requires
            self is Partial,
        ensures
            *self == Block::Partial(*r),
    {
        match self {
            Block::Full(_) => vstd::pervasive::unreached(),
            Block::Partial(par) => par,
        }
    }

    /// The block as a partial one, for writing.
    pub fn partial_mut(&mut self) -> (r: &mut Partial)
        requires
            *old(self) is Partial,
        ensures
            *old(self) == Block::Partial(*r),
            *final(self) == Block::Partial(*final(r)),
    {
        match self {
            Block::Full(_) => vstd::pervasive::unreached(),
            Block::Partial(par) => par,
        }
    }

    /// The number of bytes of the block.
    pub fn len(&self) -> (r: u64)
        ensures
            r == self.data_spec().len(),
    {
        match self {
            Block::Full(f) => f.data().len() as u64,
            Block::Partial(p) => p.data().len() as u64,
        }
    }
}

/// A reference to a block: its id, the key to its content, and hints at
/// parts of other blocks that hold the same bytes.
#[derive(Debug)]
pub struct BlockRef {
    pub blockid: BlockId,
    pub key: Key,
    pub hints: Vec<Hint>,
}

/// A window of `length` bytes at `offset` in the content of a block.
#[derive(Debug)]
pub struct Hint {
    pub blockref: BlockRef,
    pub offset: u64,
    pub length: u64,
}

impl BlockRef {
    /// Whether `other` says what this reference says: the same id and key,
    /// and hints that say the same, one for one.
    pub open spec fn same(&self, other: &BlockRef) -> bool
        decreases self,
    {
        &&& self.blockid == other.blockid
        &&& self.key == other.key
        &&& self.hints@.len() == other.hints@.len()
        &&& forall|i: int|
            0 <= i < self.hints@.len() ==> {
                &&& (#[trigger] self.hints@[i]).offset == other.hints@[i].offset
                &&& self.hints@[i].length == other.hints@[i].length
                &&& self.hints@[i].blockref.same(&other.hints@[i].blockref)
            }
    }

    /// A reference to the block `blockid` with the key `key` and the hints
    /// `hints`.
    pub fn new(blockid: BlockId, key: Key, hints: Vec<Hint>) -> (r: BlockRef)
        ensures
            r.blockid == blockid,
            r.key == key,
            r.hints == hints,
    {
        BlockRef { blockid, key, hints }
    }

    /// A copy of the reference.
    pub fn duplicate(&self) -> (r: BlockRef)
        ensures
            self.same(&r),
        decreases self,
    {
        let mut hints: Vec<Hint> = Vec::new();
        let mut i: usize = 0;
        while i < self.hints.len()
            invariant
                i <= self.hints@.len(),
                hints@.len() == i,
                forall|j: int|
                    0 <= j < i ==> {
                        &&& (#[trigger] self.hints@[j]).offset == hints@[j].offset
                        &&& self.hints@[j].length == hints@[j].length
                        &&& self.hints@[j].blockref.same(&hints@[j].blockref)
                    },
            decreases self.hints@.len() - i,
        {
            let h: &Hint = &self.hints[i];
            let blockref: BlockRef = h.blockref.duplicate();
            hints.push(Hint { blockref, offset: h.offset, length: h.length });
            i += 1;
        }
        BlockRef { blockid: self.blockid, key: self.key, hints }
    }
}

/// Whether two ids are the same.
pub fn same_id(a: &BlockId, b: &BlockId) -> (r: bool)
    ensures
        r == (a@ == b@),
        r == (*a == *b),
{
    let r: bool = equal(a.as_slice(), b.as_slice());
    proof {
        if a@ == b@ {
            assert(*a =~= *b);
        }
    }
    r
}

/// No two of `blocks` have the same id.
pub open spec fn distinct_ids(blocks: Seq<Block>) -> bool {
    forall|i: int, j: int|
        0 <= i < j < blocks.len() ==> (#[trigger] blocks[i]).id_spec() != (
        #[trigger] blocks[j]).id_spec()
}

/// Whether one of `blocks` has the id `id`.
pub open spec fn has_id(blocks: Seq<Block>, id: Seq<u8>) -> bool {
    exists|i: int| 0 <= i < blocks.len() && (#[trigger] blocks[i]).id_spec() == id
}

/// `blocks` without those whose id an earlier one has.
pub open spec fn first_wins(blocks: Seq<Block>) -> Seq<Block>
    decreases blocks.len(),
{
    if blocks.len() == 0 {
        Seq::empty()
    } else {
        let head = first_wins(blocks.drop_last());
        if has_id(head, blocks.last().id_spec()) {
            head
        } else {
            head.push(blocks.last())
        }
    }
}

/// Keeping the first block under each id loses no id, and what is kept is
/// one of `blocks`.
pub proof fn lemma_first_wins(blocks: Seq<Block>)
    ensures
        forall|id: Seq<u8>|
            #![trigger has_id(first_wins(blocks), id)]
            #![trigger has_id(blocks, id)]
            has_id(first_wins(blocks), id) == has_id(blocks, id),
        forall|i: int|
            0 <= i < first_wins(blocks).len() ==> exists|j: int|
                0 <= j < blocks.len() && blocks[j] == #[trigger] first_wins(blocks)[i],
    decreases blocks.len(),
{
    let kept = first_wins(blocks);
    if blocks.len() > 0 {
        let rest = blocks.drop_last();
        let head = first_wins(rest);
        lemma_first_wins(rest);
        assert forall|id: Seq<u8>| has_id(kept, id) == has_id(blocks, id) by {
            if has_id(kept, id) {
                let i = choose|i: int| 0 <= i < kept.len() && (#[trigger] kept[i]).id_spec() == id;
                if i < head.len() {
                    assert(head[i].id_spec() == id);
                    assert(has_id(rest, id));
                    let j = choose|j: int|
                        0 <= j < rest.len() && (#[trigger] rest[j]).id_spec() == id;
                    assert(blocks[j].id_spec() == id);
                } else {
                    assert(blocks[blocks.len() - 1].id_spec() == id);
                }
            }
            if has_id(blocks, id) {
                let j = choose|j: int|
                    0 <= j < blocks.len() && (#[trigger] blocks[j]).id_spec() == id;
                if j < rest.len() {
                    assert(rest[j].id_spec() == id);
                    assert(has_id(rest, id));
                    assert(has_id(head, id));
                    let i = choose|i: int|
                        0 <= i < head.len() && (#[trigger] head[i]).id_spec() == id;
                    assert(kept[i].id_spec() == id);
                } else if has_id(head, id) {
                    let i = choose|i: int|
                        0 <= i < head.len() && (#[trigger] head[i]).id_spec() == id;
                    assert(kept[i].id_spec() == id);
                } else {
                    assert(kept[kept.len() - 1].id_spec() == id);
                }
            }
        }
        assert forall|i: int| 0 <= i < kept.len() implies exists|j: int|
            0 <= j < blocks.len() && blocks[j] == #[trigger] kept[i] by {
            if i < head.len() {
                assert(kept[i] == head[i]);
                let j = choose|j: int| 0 <= j < rest.len() && rest[j] == head[i];
                assert(blocks[j] == kept[i]);
            } else {
                assert(blocks[blocks.len() - 1] == kept[i]);
            }
        }
    }
}

/// The blocks that are known, the root that is in force, and the root that
/// is to come once all its blocks are there.
#[derive(Debug)]
pub struct BlockDb {
    root: BlockRef,
    pending_root: Option<BlockRef>,
    blocks: Vec<Block>,
}

impl BlockDb {
    /// The root that is in force.
    pub closed spec fn root_spec(&self) -> BlockRef {
        self.root
    }

    /// The root that is to come, if there is one.
    pub closed spec fn pending_spec(&self) -> Option<BlockRef> {
        self.pending_root
    }

    /// The blocks of the store, in the order in which they were added.
    pub closed spec fn blocks_spec(&self) -> Seq<Block> {
        self.blocks@
    }

    /// No two blocks of the store have the same id.
    pub open spec fn wf(&self) -> bool {
        distinct_ids(self.blocks_spec())
    }

    /// Whether the store has a block with the id `id`.
    pub open spec fn has(&self, id: Seq<u8>) -> bool {
        has_id(self.blocks_spec(), id)
    }

    /// The place of the block with the id `id`.
    pub open spec fn index_of(&self, id: Seq<u8>) -> int {
        choose|i: int|
            0 <= i < self.blocks_spec().len() && (#[trigger] self.blocks_spec()[i]).id_spec() == id
    }

    /// The block with the id `id`.
    pub open spec fn block(&self, id: Seq<u8>) -> Block {
        self.blocks_spec()[self.index_of(id)]
    }

    /// A store with the root `root` and the blocks `blocks`, of which the
    /// first one under each id is kept. No root is pending.
    pub fn new(root: BlockRef, blocks: Vec<Block>) -> (r: BlockDb)
        ensures
            r.wf(),
            r.root_spec() == root,
            r.pending_spec().is_none(),
            r.blocks_spec() == first_wins(blocks@),
    {
        let mut blocks = blocks;
        let ghost orig = blocks@;
        let n: usize = blocks.len();
        let mut rev: Vec<Block> = Vec::new();
        while blocks.len() > 0
            invariant
                blocks@.len() + rev@.len() == n,
                n == orig.len(),
                blocks@ == orig.subrange(0, blocks@.len() as int),
                forall|j: int| 0 <= j < rev@.len() ==> rev@[j] == orig[n - 1 - j],
            decreases blocks@.len(),
        {
            let ghost before = blocks@;
            let b: Block = blocks.pop().unwrap();
            rev.push(b);
            proof {
                assert(blocks@ =~= orig.subrange(0, blocks@.len() as int));
            }
        }
        let mut db = BlockDb { root, pending_root: None, blocks };
        let mut k: usize = 0;
        while rev.len() > 0
            invariant
                k + rev@.len() == n,
                n == orig.len(),
                forall|j: int| 0 <= j < rev@.len() ==> rev@[j] == orig[n - 1 - j],
                db.wf(),
                db.root == root,
                db.pending_root.is_none(),
                db.blocks@ == first_wins(orig.subrange(0, k as int)),
            decreases rev@.len(),
        {
            let b: Block = rev.pop().unwrap();
            proof {
                assert(b == orig[k as int]);
                let next = orig.subrange(0, k + 1);
                assert(next.drop_last() =~= orig.subrange(0, k as int));
                assert(next.last() == b);
            }
            db.add(b);
            k += 1;
        }
        proof {
            assert(orig.subrange(0, n as int) =~= orig);
        }
        db
    }

    /// The number of blocks of the store.
    pub fn block_count(&self) -> (r: usize)
        ensures
            r == self.blocks_spec().len(),
    {
        self.blocks.len()
    }

    /// The root that is in force.
    pub fn root(&self) -> (r: &BlockRef)
        ensures
            *r == self.root_spec(),
    {
        &self.root
    }

    /// The root that is to come, if there is one.
    pub fn pending_root(&self) -> (r: Option<&BlockRef>)
        ensures
            r.is_some() == self.pending_spec().is_some(),
            r matches Some(p) ==> *p == self.pending_spec().unwrap(),
    {
        self.pending_root.as_ref()
    }

    /// Makes `pending_root` the root that is to come, unless there is one
    /// already: then nothing changes.
    pub fn set_pending_root(&mut self, pending_root: BlockRef) -> (r: Result<(), StoreError>)
        ensures
            final(self).root_spec() == old(self).root_spec(),
            final(self).blocks_spec() == old(self).blocks_spec(),
            old(self).pending_spec().is_none() ==> r.is_ok() && final(self).pending_spec() == Some(
                pending_root,
            ),
            old(self).pending_spec().is_some() ==> r == Err::<(), StoreError>(
                StoreError::PendingBusy,
            ) && final(self).pending_spec() == old(self).pending_spec(),
    {
        if self.pending_root.is_some() {
            return Err(StoreError::PendingBusy);
        }
        self.pending_root = Some(pending_root);
        Ok(())
    }

    /// Puts the pending root in force and returns the root that was in force
    /// before. No root is pending afterwards.
    pub fn apply_pending(&mut self) -> (r: BlockRef)
        requires
            old(self).pending_spec().is_some(),
        ensures
            r == old(self).root_spec(),
            final(self).root_spec() == old(self).pending_spec().unwrap(),
            final(self).pending_spec().is_none(),
            final(self).blocks_spec() == old(self).blocks_spec(),
    {
        let mut swapped: BlockRef = self.pending_root.take().unwrap();
        core::mem::swap(&mut self.root, &mut swapped);
        swapped
    }

    /// The place of the block with the id `id`, if the store has one.
    fn position(&self, id: &BlockId) -> (r: Option<usize>)
        ensures
            match r {
                Some(i) => i < self.blocks_spec().len() && self.blocks_spec()[i as int].id_spec()
                    == id@,
                None => !self.has(id@),
            },
    {
        let mut i: usize = 0;
        while i < self.blocks.len()
            invariant
                i <= self.blocks@.len(),
                forall|j: int| 0 <= j < i ==> (#[trigger] self.blocks@[j]).id_spec() != id@,
            decreases self.blocks@.len() - i,
        {
            let other: BlockId = self.blocks[i].id();
            if same_id(&other, id) {
                return Some(i);
            }
            i += 1;
        }
        None
    }

    /// Whether the store has a block with the id `id`.
    pub fn contains(&self, id: BlockId) -> (r: bool)
        ensures
            r == self.has(id@),
    {
        self.position(&id).is_some()
    }

    /// The block with the id `id`. Where it is full, the digest of its bytes
    /// is `id`.
    pub fn get(&self, id: BlockId) -> (r: &Block)
        requires
            self.has(id@),
        ensures
            r.id_spec() == id@,
            self.wf() ==> *r == self.block(id@),
            r is Full ==> keccak256(r.data_spec()) == id@,
    {
        match self.position(&id) {
            Some(i) => {
                let block: &Block = &self.blocks[i];
                match block {
                    Block::Full(f) => {
                        proof {
                            use_type_invariant(f);
                        }
                    },
                    Block::Partial(_) => {},
                }
                block
            },
            None => vstd::pervasive::unreached(),
        }
    }

    /// The block with the id `id`, for writing. The store is well formed
    /// afterwards where the block keeps its id.
    pub fn get_mut(&mut self, id: BlockId) -> (r: &mut Block)
        requires
            old(self).wf(),
            old(self).has(id@),
        ensures
            *r == old(self).block(id@),
            final(self).root_spec() == old(self).root_spec(),
            final(self).pending_spec() == old(self).pending_spec(),
            final(self).blocks_spec() == old(self).blocks_spec().update(
                old(self).index_of(id@),
                *final(r),
            ),
            final(r).id_spec() == id@ ==> final(self).wf(),
    {
        match self.position(&id) {
            Some(i) => &mut self.blocks[i],
            None => vstd::pervasive::unreached(),
        }
    }

    /// Adds `block`, unless the store has a block with its id already: then
    /// nothing changes.
    pub fn add(&mut self, block: Block)
        requires
            old(self).wf(),
        ensures
            final(self).wf(),
            final(self).root_spec() == old(self).root_spec(),
            final(self).pending_spec() == old(self).pending_spec(),
            final(self).blocks_spec() == if old(self).has(block.id_spec()) {
                old(self).blocks_spec()
            } else {
                old(self).blocks_spec().push(block)
            },
    {
        let id: BlockId = block.id();
        if self.position(&id).is_none() {
            self.blocks.push(block);
        }
    }

    /// Turns the partial block `id` into a full one where all its chunks
    /// have arrived and its bytes have the digest that its id names, and
    /// says whether it did. Where all chunks have arrived and the digest is
    /// another, the block is taken out of the store. In every other case,
    /// also where the store has no such block or the block is full already,
    /// nothing changes.
    pub fn try_promote(&mut self, id: BlockId) -> (r: Result<bool, StoreError>)
        requires
            old(self).wf(),
        ensures
            final(self).wf(),
            final(self).root_spec() == old(self).root_spec(),
            final(self).pending_spec() == old(self).pending_spec(),
            promotion(old(self).blocks_spec(), id@, final(self).blocks_spec(), r),
    {
        let i: usize = match self.position(&id) {
            Some(i) => i,
            None => {
                return Ok(false);
            },
        };
        let ready: bool = match &self.blocks[i] {
            Block::Full(_) => false,
            Block::Partial(p) => p.is_complete(),
        };
        if !ready {
            return Ok(false);
        }
        let ghost before = self.blocks@;
        proof {
            assert(ready_at(before, id@, i as int));
            let c = choose|c: int| ready_at(before, id@, c);
            if c != i {
                assert(before[c].id_spec() == before[i as int].id_spec());
            }
        }
        let taken: Block = self.blocks.remove(i);
        match taken {
            Block::Full(_) => vstd::pervasive::unreached(),
            Block::Partial(p) => {
                let Partial { id: pid, data, available: _ } = p;
                match Full::from_parts(pid, data) {
                    Ok(full) => {
                        self.blocks.insert(i, Block::Full(full));
                        proof {
                            assert(self.blocks@ =~= before.update(i as int, Block::Full(full)));
                        }
                        Ok(true)
                    },
                    Err(e) => Err(e),
                }
            },
        }
    }
}

/// What promoting the block `id` does to the blocks `before` of a store.
/// Where `before` holds a partial block `id` of which all chunks have
/// arrived: if its bytes have the digest `id`, a full block with these bytes
/// stands in its place in `after` and the result is `Ok(true)`; if not, the
/// block is gone and the result is the error. In every other case `after` is
/// `before` and the result is `Ok(false)`.
pub open spec fn promotion(
    before: Seq<Block>,
    id: Seq<u8>,
    after: Seq<Block>,
    r: Result<bool, StoreError>,
) -> bool {
    if exists|i: int| ready_at(before, id, i) {
        let i = choose|i: int| ready_at(before, id, i);
        if keccak256(before[i].data_spec()) == id {
            &&& r == Ok::<bool, StoreError>(true)
            &&& after.len() == before.len()
            &&& after[i] is Full
            &&& after[i].id_spec() == id
            &&& after[i].data_spec() == before[i].data_spec()
            &&& forall|j: int| 0 <= j < before.len() && j != i ==> after[j] == before[j]
        } else {
            &&& r == Err::<bool, StoreError>(StoreError::DigestMismatch)
            &&& after == before.remove(i)
        }
    } else {
        &&& r == Ok::<bool, StoreError>(false)
        &&& after == before
    }
}

/// Whether place `i` of `blocks` holds a partial block `id` of which all
/// chunks have arrived.
pub open spec fn ready_at(blocks: Seq<Block>, id: Seq<u8>, i: int) -> bool {
    &&& 0 <= i < blocks.len()
    &&& blocks[i].id_spec() == id
    &&& blocks[i] matches Block::Partial(p)
    &&& p.complete()
}

/// A block is promoted once: after a promotion that made the block `id`
/// full, every further promotion of it changes nothing and says so.
pub proof fn lemma_promoted_once(
    before: Seq<Block>,
    id: Seq<u8>,
    after: Seq<Block>,
    again: Seq<Block>,
    r: Result<bool, StoreError>,
)
    requires
        distinct_ids(before),
        promotion(before, id, after, Ok(true)),
        promotion(after, id, again, r),
    ensures
        r == Ok::<bool, StoreError>(false),
        again == after,
{
    let i = choose|i: int| ready_at(before, id, i);
    assert(ready_at(before, id, i));
    if exists|j: int| ready_at(after, id, j) {
        let j = choose|j: int| ready_at(after, id, j);
        if j != i {
            assert(after[j] == before[j]);
            assert(before[j].id_spec() == before[i].id_spec());
        }
    }
}

/// A block is promoted only with all its chunks: a promotion that made the
/// block `id` full found it partial, with every chunk arrived and bytes of
/// the digest `id`, and left every other block as it was.
pub proof fn lemma_promoted_when_complete(before: Seq<Block>, id: Seq<u8>, after: Seq<Block>)
    requires
        promotion(before, id, after, Ok(true)),
    ensures
        exists|i: int|
            {
                &&& #[trigger] ready_at(before, id, i)
                &&& keccak256(before[i].data_spec()) == id
                &&& after[i] is Full
                &&& after[i].data_spec() == before[i].data_spec()
            },
{
    let i = choose|i: int| ready_at(before, id, i);
    assert(ready_at(before, id, i));
}

} // verus!
