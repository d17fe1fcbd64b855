//! The bookkeeping of block transfers with one peer: the ranges of chunk ids
//! under which blocks come in and go out, the sender's cursor, and the
//! status that tells the sender what is missing.

use crate::blockdb::{chunk_count, same_id, Block, BlockDb, BlockId, CHUNK_SIZE};
use crate::bytes::copy_range;
use crate::codec::least_missing;
use crate::rle::{
    ascending, covered, lemma_ranges_bounds, lemma_ranges_of_bits, lemma_run_end_is,
    lemma_runs_total, ranges_of_runs, runs, runs_from,
};
use crate::wire::{pairs, BlockRequestResponse, TransferPayload};
use vstd::prelude::*;

verus! {

/// Why a message about a transfer was not acted on.
#[derive(Debug, Clone, Copy, PartialEq, Eq)]
pub enum TransferError {
    /// The peer has no open connection.
    UnknownPeer,
    /// The announced block was not asked for.
    NotAsked,
    /// The chunk id lies in no range that was announced.
    UnknownChunkId,
    /// The announced range does not have one id for each chunk of the block,
    /// or the block is too long for this machine.
    BadRange,
    /// The announced range does not fit between those announced before.
    Overlap,
    /// A range was announced for this block already.
    Duplicate,
    /// The chunk lies outside its block, or is shorter than its place.
    BadChunk,
}

/// `rand::random` at the type `u32`: a number picked at random.
#[verifier::external_body]
fn random_u32() -> (r: u32) {
    rand::random::<u32>()
}

/// The number of chunks of a block of `len` bytes.
pub fn chunks_of(len: u64) -> (r: u64)
    ensures
        r == chunk_count(len as nat),
{
    if len % (CHUNK_SIZE as u64) != 0 {
        len / (CHUNK_SIZE as u64) + 1
    } else {
        len / (CHUNK_SIZE as u64)
    }
}

/// A block that goes out: the chunk ids `from` up to, and without, `to`.
pub type OutTransfer = (u64, u64, BlockId);

/// The place of the first of `transfers`, from place `from` on, that is for
/// the block `id`.
pub open spec fn find_out(transfers: Seq<OutTransfer>, id: Seq<u8>, from: int) -> Option<int>
    decreases transfers.len() - from,
{
    if from < 0 || from >= transfers.len() {
        None
    } else if transfers[from].2@ == id {
        Some(from)
    } else {
        find_out(transfers, id, from + 1)
    }
}

/// What a request for the block `id` of `len` bytes does to the outgoing
/// transfers `transfers`, the next free chunk id being `next`: the transfers
/// and the next free id afterwards, and the range of the block. A block that
/// has a range keeps it. A new range starts at the next free id and has one
/// id for each chunk; there is none where the ids would pass `u64::MAX`.
pub open spec fn allocated(transfers: Seq<OutTransfer>, next: u64, id: BlockId, len: u64) -> (
    Seq<OutTransfer>,
    u64,
    Option<(u64, u64)>,
) {
    match find_out(transfers, id@, 0) {
        Some(i) => (transfers, next, Some((transfers[i].0, transfers[i].1))),
        None => if next + chunk_count(len as nat) > u64::MAX {
            (transfers, next, None)
        } else {
            let to = (next + chunk_count(len as nat)) as u64;
            (transfers.push((next, to, id)), to, Some((next, to)))
        },
    }
}

/// What `find_out` finds is a place for that block, and the first such.
pub proof fn lemma_find_out(transfers: Seq<OutTransfer>, id: Seq<u8>, from: int)
    requires
        0 <= from,
    ensures
        match find_out(transfers, id, from) {
            Some(i) => from <= i < transfers.len() && transfers[i].2@ == id && forall|j: int|
                from <= j < i ==> (#[trigger] transfers[j]).2@ != id,
            None => forall|j: int|
                from <= j < transfers.len() ==> (#[trigger] transfers[j]).2@ != id,
        },
    decreases transfers.len() - from,
{
    if from < transfers.len() && transfers[from].2@ != id {
        lemma_find_out(transfers, id, from + 1);
    }
}

/// The first place for a block, given as a place for it before which there
/// is none.
pub proof fn lemma_find_out_is(transfers: Seq<OutTransfer>, id: Seq<u8>, from: int, i: int)
    requires
        0 <= from <= i < transfers.len(),
        transfers[i].2@ == id,
        forall|j: int| from <= j < i ==> (#[trigger] transfers[j]).2@ != id,
    ensures
        find_out(transfers, id, from) == Some(i),
    decreases i - from,
{
    if from < i {
        assert(transfers[from].2@ != id);
        lemma_find_out_is(transfers, id, from + 1, i);
    }
}

/// The same request made twice gets the same answer, and the second one
/// changes nothing.
pub proof fn lemma_block_request_idempotent(
    transfers: Seq<OutTransfer>,
    next: u64,
    id: BlockId,
    len: u64,
)
    ensures
        ({
            let (t1, n1, r1) = allocated(transfers, next, id, len);
            allocated(t1, n1, id, len) == (t1, n1, r1)
        }),
{
    let (t1, n1, r1) = allocated(transfers, next, id, len);
    lemma_find_out(transfers, id@, 0);
    if find_out(transfers, id@, 0).is_none() && next + chunk_count(len as nat) <= u64::MAX {
        lemma_find_out_is(t1, id@, 0, transfers.len() as int);
    }
}

/// A block that has no range yet gets the next free ids, one for each of its
/// chunks, where the ids do not run out: its range starts at the next free
/// id, and the next free id becomes the end of the range. The range lies
/// behind every earlier one, so the ranges that go out stay apart from each
/// other and rise in the order in which they were given.
pub proof fn lemma_new_range(transfers: Seq<OutTransfer>, next: u64, id: BlockId, len: u64)
    requires
        forall|i: int|
            0 <= i < transfers.len() ==> (#[trigger] transfers[i]).0 <= transfers[i].1 <= next,
        forall|i: int, j: int|
            0 <= i < j < transfers.len() ==> (#[trigger] transfers[i]).1 <= (
            #[trigger] transfers[j]).0,
        find_out(transfers, id@, 0).is_none(),
        next + chunk_count(len as nat) <= u64::MAX,
    ensures
        ({
            let (after, free, range) = allocated(transfers, next, id, len);
            &&& range == Some((next, free))
            &&& free == next + (len + CHUNK_SIZE - 1) / (CHUNK_SIZE as int)
            &&& after == transfers.push((next, free, id))
            &&& forall|i: int| 0 <= i < transfers.len() ==> (#[trigger] transfers[i]).1 <= next
            &&& forall|i: int, j: int|
                0 <= i < j < after.len() ==> (#[trigger] after[i]).1 <= (#[trigger] after[j]).0
        }),
{
    let (after, free, range) = allocated(transfers, next, id, len);
    assert forall|i: int, j: int| 0 <= i < j < after.len() implies (#[trigger] after[i]).1 <= (
    #[trigger] after[j]).0 by {
        assert(after[i] == transfers[i]);
        if j < transfers.len() {
            assert(after[j] == transfers[j]);
        }
    }
}

/// The outgoing side of the transfers with one peer.
#[derive(Debug)]
pub struct TransferOut {
    todo: Vec<(u64, u64)>,
    cursor: Option<u64>,
    transfers: Vec<OutTransfer>,
    transfer_cursor: u64,
}

/// What the sender does next.
#[derive(Debug)]
pub enum SendStep {
    /// Nothing: no chunk is to be sent.
    Idle,
    /// Nothing at this id, which names no chunk that can be sent.
    Skip,
    /// Send this payload.
    Payload(TransferPayload),
}

/// The place of the first of `transfers`, from place `from` on, whose range
/// holds the chunk id `id`.
pub open spec fn holder(transfers: Seq<OutTransfer>, id: u64, from: int) -> Option<int>
    decreases transfers.len() - from,
{
    if from < 0 || from >= transfers.len() {
        None
    } else if transfers[from].0 <= id < transfers[from].1 {
        Some(from)
    } else {
        holder(transfers, id, from + 1)
    }
}

/// The bytes that go out under the chunk id `id`: the chunk of the block
/// whose range holds `id`, where the store has that block in full and the
/// chunk lies in it.
pub open spec fn sendable(transfers: Seq<OutTransfer>, blockdb: BlockDb, id: u64) -> Option<
    Seq<u8>,
> {
    match holder(transfers, id, 0) {
        None => None,
        Some(i) => {
            let blockid = transfers[i].2@;
            let offset = (id - transfers[i].0) * CHUNK_SIZE;
            if blockdb.has(blockid) && blockdb.block(blockid) is Full && offset
                < blockdb.block(blockid).data_spec().len() {
                let data = blockdb.block(blockid).data_spec();
                Some(
                    data.subrange(
                        offset,
                        if offset + CHUNK_SIZE <= data.len() {
                            offset + CHUNK_SIZE
                        } else {
                            data.len() as int
                        },
                    ),
                )
            } else {
                None
            }
        },
    }
}

/// The smallest id at or above `from` that lies in one of the ascending
/// ranges `ranges`.
pub fn least_from(ranges: &Vec<(u64, u64)>, from: u64) -> (r: Option<u64>)
    requires
        ascending(pairs(ranges@)),
    ensures
        least_missing(pairs(ranges@), from as nat, r),
{
    let ghost view = pairs(ranges@);
    let mut i: usize = 0;
    while i < ranges.len()
        invariant
            i <= ranges@.len(),
            view == pairs(ranges@),
            ascending(view),
            forall|k: int| 0 <= k < i ==> (#[trigger] view[k]).1 <= from || view[k].0 >= view[k].1,
        decreases ranges@.len() - i,
    {
        let range: (u64, u64) = ranges[i];
        if range.1 > from && range.0 < range.1 {
            let found: u64 = if range.0 > from {
                range.0
            } else {
                from
            };
            proof {
                assert(view[i as int] == (range.0 as nat, range.1 as nat));
                assert(view[i as int].0 <= found < view[i as int].1);
                assert forall|x: nat| from <= x < found implies !covered(view, x) by {
                    if covered(view, x) {
                        let k = choose|k: int|
                            0 <= k < view.len() && (#[trigger] view[k]).0 <= x < view[k].1;
                        if k > i {
                            assert(view[i as int].1 <= view[k].0);
                        }
                    }
                }
            }
            return Some(found);
        }
        proof {
            assert(view[i as int] == (range.0 as nat, range.1 as nat));
        }
        i += 1;
    }
    proof {
        assert forall|x: nat| from <= x implies !covered(view, x) by {
            if covered(view, x) {
                let k = choose|k: int|
                    0 <= k < view.len() && (#[trigger] view[k]).0 <= x < view[k].1;
            }
        }
    }
    None
}

impl TransferOut {
    /// The ranges that the peer misses, as of its last status.
    pub closed spec fn todo_spec(&self) -> Seq<(nat, nat)> {
        pairs(self.todo@)
    }

    /// The chunk id that is sent next, if one is.
    pub closed spec fn cursor_spec(&self) -> Option<u64> {
        self.cursor
    }

    /// The blocks that go out, in the order of their requests.
    pub closed spec fn transfers_spec(&self) -> Seq<OutTransfer> {
        self.transfers@
    }

    /// The next free chunk id.
    pub closed spec fn next_alloc(&self) -> u64 {
        self.transfer_cursor
    }

    /// The missing ranges are in ascending order, and the ranges of the
    /// blocks lie one behind the other in the order of their requests, all
    /// below the next free id.
    pub open spec fn wf(&self) -> bool {
        &&& ascending(self.todo_spec())
        &&& forall|i: int|
            0 <= i < self.transfers_spec().len() ==> (#[trigger] self.transfers_spec()[i]).0
                <= self.transfers_spec()[i].1 <= self.next_alloc()
        &&& forall|i: int, j: int|
            0 <= i < j < self.transfers_spec().len() ==> (#[trigger] self.transfers_spec()[i]).1
                <= (#[trigger] self.transfers_spec()[j]).0
    }

    /// A side on which nothing goes out yet, with `start` as the first chunk
    /// id.
    pub fn new(start: u64) -> (r: TransferOut)
        ensures
            r.wf(),
            r.todo_spec().len() == 0,
            r.cursor_spec().is_none(),
            r.transfers_spec().len() == 0,
            r.next_alloc() == start,
    {
        let r = TransferOut {
            todo: Vec::new(),
            cursor: None,
            transfers: Vec::new(),
            transfer_cursor: start,
        };
        proof {
            assert(r.todo_spec() =~= Seq::<(nat, nat)>::empty());
        }
        r
    }

    /// The place of the transfer for the block `id`.
    fn position(&self, id: &BlockId) -> (r: Option<usize>)
        ensures
            match r {
                Some(i) => i < self.transfers@.len() && find_out(self.transfers@, id@, 0) == Some(
                    i as int,
                ),
                None => find_out(self.transfers@, id@, 0).is_none(),
            },
    {
        let mut i: usize = 0;
        while i < self.transfers.len()
            invariant
                i <= self.transfers@.len(),
                forall|j: int| 0 <= j < i ==> (#[trigger] self.transfers@[j]).2@ != id@,
            decreases self.transfers@.len() - i,
        {
            let other: BlockId = self.transfers[i].2;
            if same_id(&other, id) {
                proof {
                    lemma_find_out_is(self.transfers@, id@, 0, i as int);
                }
                return Some(i);
            }
            i += 1;
        }
        proof {
            lemma_find_out(self.transfers@, id@, 0);
            if find_out(self.transfers@, id@, 0).is_some() {
                assert(false);
            }
        }
        None
    }

    /// Answers a request for the block `blockid` of `len` bytes with the
    /// range of chunk ids under which the block goes out: the range that it
    /// has, or a new one from the next free id on.
    pub fn block_request(&mut self, blockid: BlockId, len: u64) -> (r: Option<(u64, u64)>)
        requires
            old(self).wf(),
        ensures
            final(self).wf(),
            final(self).todo_spec() == old(self).todo_spec(),
            final(self).cursor_spec() == old(self).cursor_spec(),
            (final(self).transfers_spec(), final(self).next_alloc(), r) == allocated(
                old(self).transfers_spec(),
                old(self).next_alloc(),
                blockid,
                len,
            ),
            final(self).next_alloc() >= old(self).next_alloc(),
    {
        match self.position(&blockid) {
            Some(i) => {
                let t: OutTransfer = self.transfers[i];
                Some((t.0, t.1))
            },
            None => {
                let n: u64 = chunks_of(len);
                if n > u64::MAX - self.transfer_cursor {
                    return None;
                }
                let from: u64 = self.transfer_cursor;
                let to: u64 = from + n;
                self.transfers.push((from, to, blockid));
                self.transfer_cursor = to;
                proof {
                    let before = old(self).transfers@;
                    let after = self.transfers@;
                    assert(before == old(self).transfers_spec());
                    assert(forall|i: int|
                        0 <= i < before.len() ==> (#[trigger] before[i]).0 <= before[i].1 <= from);
                    assert(after =~= before.push((from, to, blockid)));
                    assert forall|i: int| 0 <= i < after.len() implies (#[trigger] after[i]).0
                        <= after[i].1 <= to by {
                        if i < before.len() {
                            assert(after[i] == before[i]);
                        }
                    }
                    assert forall|i: int, j: int| 0 <= i < j < after.len() implies (
                    #[trigger] after[i]).1 <= (#[trigger] after[j]).0 by {
                        assert(after[i] == before[i]);
                        if j < before.len() {
                            assert(after[j] == before[j]);
                        }
                    }
                }
                Some((from, to))
            },
        }
    }

    /// Takes in the ranges that the peer misses. Where no chunk was to be
    /// sent, the sender is to start at the first missing id, if there is
    /// one; returns whether it is. Ranges that are not in ascending order
    /// change nothing.
    pub fn transfer_status(&mut self, missing_ranges: Vec<(u64, u64)>) -> (launch: bool)
        requires
            old(self).wf(),
        ensures
            final(self).wf(),
            final(self).transfers_spec() == old(self).transfers_spec(),
            final(self).next_alloc() == old(self).next_alloc(),
            !ascending(pairs(missing_ranges@)) ==> {
                &&& !launch
                &&& final(self).todo_spec() == old(self).todo_spec()
                &&& final(self).cursor_spec() == old(self).cursor_spec()
            },
            ascending(pairs(missing_ranges@)) ==> {
                &&& final(self).todo_spec() == pairs(missing_ranges@)
                &&& old(self).cursor_spec().is_some() ==> !launch && final(self).cursor_spec()
                    == old(self).cursor_spec()
                &&& old(self).cursor_spec().is_none() ==> least_missing(
                    pairs(missing_ranges@),
                    0,
                    final(self).cursor_spec(),
                ) && launch == final(self).cursor_spec().is_some()
            },
    {
        if !crate::wire::is_ascending(&missing_ranges) {
            return false;
        }
        self.todo = missing_ranges;
        proof {
            assert(self.transfers_spec() == old(self).transfers_spec());
            assert(self.next_alloc() == old(self).next_alloc());
            assert(self.todo_spec() == pairs(missing_ranges@));
            let before = old(self).transfers_spec();
            assert(forall|i: int|
                0 <= i < before.len() ==> (#[trigger] before[i]).0 <= before[i].1 <= old(
                    self,
                ).next_alloc());
            assert(forall|i: int, j: int|
                0 <= i < j < before.len() ==> (#[trigger] before[i]).1 <= (
                #[trigger] before[j]).0);
            assert(self.wf());
        }
        if self.cursor.is_some() {
            return false;
        }
        self.cursor = least_from(&self.todo, 0);
        self.cursor.is_some()
    }

    /// The place of the transfer whose range holds the chunk id `id`.
    fn holder_of(&self, id: u64) -> (r: Option<usize>)
        ensures
            match r {
                Some(i) => i < self.transfers@.len() && holder(self.transfers@, id, 0) == Some(
                    i as int,
                ) && self.transfers@[i as int].0 <= id < self.transfers@[i as int].1,
                None => holder(self.transfers@, id, 0).is_none(),
            },
    {
        let mut i: usize = 0;
        while i < self.transfers.len()
            invariant
                i <= self.transfers@.len(),
                holder(self.transfers@, id, 0) == holder(self.transfers@, id, i as int),
            decreases self.transfers@.len() - i,
        {
            let t: OutTransfer = self.transfers[i];
            if t.0 <= id && id < t.1 {
                return Some(i);
            }
            i += 1;
        }
        None
    }

    /// One step of the sender: the payload for the chunk id at the cursor,
    /// where there is one, and the cursor moves to the smallest missing id
    /// above it, or to rest where there is none.
    pub fn next_payload(&mut self, blockdb: &BlockDb) -> (r: SendStep)
        requires
            old(self).wf(),
            blockdb.wf(),
        ensures
            final(self).wf(),
            final(self).todo_spec() == old(self).todo_spec(),
            final(self).transfers_spec() == old(self).transfers_spec(),
            final(self).next_alloc() == old(self).next_alloc(),
            match old(self).cursor_spec() {
                None => r is Idle && final(self).cursor_spec().is_none(),
                Some(c) => {
                    &&& least_missing(
                        old(self).todo_spec(),
                        c as nat + 1,
                        final(self).cursor_spec(),
                    )
                    &&& match sendable(old(self).transfers_spec(), *blockdb, c) {
                        Some(data) => r matches SendStep::Payload(p) && p.chunkid == c && p.data@
                            == data,
                        None => r is Skip,
                    }
                },
            },
    {
        let c: u64 = match self.cursor {
            Some(c) => c,
            None => {
                return SendStep::Idle;
            },
        };
        if c == u64::MAX {
            proof {
                let ranges = self.todo_spec();
                assert forall|x: nat| c as nat + 1 <= x implies !covered(ranges, x) by {
                    if covered(ranges, x) {
                        let k = choose|k: int|
                            0 <= k < ranges.len() && (#[trigger] ranges[k]).0 <= x < ranges[k].1;
                        assert(ranges[k].1 == self.todo@[k].1);
                    }
                }
            }
            self.cursor = None;
        } else {
            self.cursor = least_from(&self.todo, c + 1);
        }
        let i: usize = match self.holder_of(c) {
            Some(i) => i,
            None => {
                return SendStep::Skip;
            },
        };
        let t: OutTransfer = self.transfers[i];
        if !blockdb.contains(t.2) {
            return SendStep::Skip;
        }
        let data: &Vec<u8> = match blockdb.get(t.2) {
            Block::Full(full) => full.data(),
            Block::Partial(_) => {
                return SendStep::Skip;
            },
        };
        let cib: u64 = c - t.0;
        let chunk_size: u128 = CHUNK_SIZE as u128;
        assert(cib as u128 * chunk_size <= u64::MAX as u128 * chunk_size) by (nonlinear_arith)
            requires
                cib <= u64::MAX,
        ;
        let offset: u128 = cib as u128 * chunk_size;
        if offset >= data.len() as u128 {
            return SendStep::Skip;
        }
        let start: usize = offset as usize;
        let end: usize = if data.len() - start >= CHUNK_SIZE {
            start + CHUNK_SIZE
        } else {
            data.len()
        };
        let chunk: Vec<u8> = copy_range(data.as_slice(), start, end);
        SendStep::Payload(TransferPayload { chunkid: c, data: chunk })
    }
}

impl Default for TransferOut {
    /// A side on which nothing goes out yet, with a first chunk id picked at
    /// random below 2 to the power of 32.
    fn default() -> (r: TransferOut)
        ensures
            r.wf(),
            r.todo_spec().len() == 0,
            r.cursor_spec().is_none(),
            r.transfers_spec().len() == 0,
            r.next_alloc() <= u32::MAX,
    {
        TransferOut::new(random_u32() as u64)
    }
}

/// A block that comes in: the chunk ids `start` up to, and without, `end`.
#[derive(Debug, Clone, Copy)]
pub struct Transfer {
    /// The id of the block in the store.
    pub blockid: BlockId,
    /// The first chunk id of the block.
    pub start: u64,
    /// The chunk id behind the last one of the block.
    pub end: u64,
}

/// The ranges lie one behind the other in the order of the list, and none
/// ends before it starts.
pub open spec fn lined_up(transfers: Seq<Transfer>) -> bool {
    &&& forall|i: int|
        0 <= i < transfers.len() ==> (#[trigger] transfers[i]).start <= transfers[i].end
    &&& forall|i: int, j: int|
        0 <= i < j < transfers.len() ==> (#[trigger] transfers[i]).end <= (
        #[trigger] transfers[j]).start
}

/// No chunk id lies in the ranges of two incoming blocks.
pub proof fn lemma_inbound_disjoint(transfers: Seq<Transfer>, i: int, j: int, id: u64)
    requires
        lined_up(transfers),
        0 <= i < transfers.len(),
        0 <= j < transfers.len(),
        i != j,
        transfers[i].start <= id < transfers[i].end,
    ensures
        !(transfers[j].start <= id < transfers[j].end),
{
    if i < j {
        assert(transfers[i].end <= transfers[j].start);
    } else {
        assert(transfers[j].end <= transfers[i].start);
    }
}

/// Whether one of `transfers` is for the block `id`.
pub open spec fn announced(transfers: Seq<Transfer>, id: Seq<u8>) -> bool {
    exists|i: int| 0 <= i < transfers.len() && (#[trigger] transfers[i]).blockid@ == id
}

/// The place of the first of `transfers`, from place `from` on, whose range
/// ends above the id `start`: the place at which a range that starts at
/// `start` stands in the order of the list.
pub open spec fn slot(transfers: Seq<Transfer>, start: u64, from: int) -> int
    decreases transfers.len() - from,
{
    if from < 0 || from >= transfers.len() || transfers[from].end > start {
        from
    } else {
        slot(transfers, start, from + 1)
    }
}

/// The place that `slot` names lies in the list or at its end, the ranges
/// before it end at or below `start`, and the range at it ends above.
pub proof fn lemma_slot(transfers: Seq<Transfer>, start: u64, from: int)
    requires
        0 <= from <= transfers.len(),
    ensures
        from <= slot(transfers, start, from) <= transfers.len(),
        forall|i: int|
            from <= i < slot(transfers, start, from) ==> (#[trigger] transfers[i]).end <= start,
        slot(transfers, start, from) < transfers.len() ==> transfers[slot(
            transfers,
            start,
            from,
        )].end > start,
    decreases transfers.len() - from,
{
    if from < transfers.len() && transfers[from].end <= start {
        lemma_slot(transfers, start, from + 1);
    }
}

/// Whether the announcement `res` is taken up beside `transfers`, and the
/// reason where it is not. Its range has one id for each chunk of the block,
/// no range was announced for the block before, and the range fits between
/// those that were: it ends at or before the start of the first one that ends
/// above its start.
pub open spec fn accepts(transfers: Seq<Transfer>, res: BlockRequestResponse) -> Result<
    (),
    TransferError,
> {
    let at = slot(transfers, res.start_id, 0);
    if res.start_id > res.end_id || res.end_id - res.start_id != chunk_count(res.len as nat)
        || res.len + CHUNK_SIZE > usize::MAX {
        Err(TransferError::BadRange)
    } else if announced(transfers, res.blockid@) {
        Err(TransferError::Duplicate)
    } else if at < transfers.len() && transfers[at].start < res.end_id {
        Err(TransferError::Overlap)
    } else {
        Ok(())
    }
}

/// The ranges of chunk ids that are missing of the block of `transfer`:
/// those of its chunks that have not arrived, where the store holds the
/// block as a partial one with one chunk for each id of the range. Of
/// another block nothing is told.
pub open spec fn missing_of(transfer: Transfer, blockdb: BlockDb) -> Seq<(nat, nat)> {
    let id = transfer.blockid@;
    if blockdb.has(id) {
        match blockdb.block(id) {
            Block::Partial(p) => if p.available_spec().len() == transfer.end - transfer.start {
                ranges_of_runs(runs(p.available_spec()), transfer.start as nat)
            } else {
                Seq::empty()
            },
            Block::Full(_) => Seq::empty(),
        }
    } else {
        Seq::empty()
    }
}

/// The missing ranges of the blocks of `transfers` from place `from` on, one
/// block after the other.
pub open spec fn status_of(transfers: Seq<Transfer>, blockdb: BlockDb, from: nat) -> Seq<
    (nat, nat),
>
    decreases transfers.len() - from,
{
    if from >= transfers.len() {
        Seq::empty()
    } else {
        missing_of(transfers[from as int], blockdb) + status_of(transfers, blockdb, from + 1)
    }
}

/// Appends to `out` the ranges of the clear bits of `bits`, the first bit
/// having the id `base`.
pub fn ranges_of_bits(bits: &Vec<bool>, base: u64, out: &mut Vec<(u64, u64)>)
    requires
        base + bits@.len() <= u64::MAX,
    ensures
        pairs(final(out)@) == pairs(old(out)@) + ranges_of_runs(runs(bits@), base as nat),
{
    let n: usize = bits.len();
    let ghost target = ranges_of_runs(runs(bits@), base as nat);
    let ghost start = pairs(out@);
    let mut i: usize = 0;
    proof {
        assert(pairs(out@) + target =~= start + target);
    }
    loop
        invariant
            i <= n == bits@.len(),
            base + n <= u64::MAX,
            start + target == pairs(out@) + ranges_of_runs(
                runs_from(bits@, i as int, true),
                (base + i) as nat,
            ),
        ensures
            start + target == pairs(out@),
        decreases n - i,
    {
        let mut s: usize = i;
        while s < n && bits[s]
            invariant
                i <= s <= n == bits@.len(),
                forall|j: int| i <= j < s ==> bits@[j],
            decreases n - s,
        {
            s += 1;
        }
        proof {
            lemma_run_end_is(bits@, i as int, s as int, true);
        }
        if s == n {
            proof {
                assert(runs_from(bits@, i as int, true) =~= seq![(s - i) as nat]);
                assert(start + target =~= pairs(out@));
            }
            break ;
        }
        let mut e: usize = s;
        while e < n && !bits[e]
            invariant
                s <= e <= n == bits@.len(),
                forall|j: int| s <= j < e ==> !bits@[j],
            decreases n - e,
        {
            e += 1;
        }
        proof {
            lemma_run_end_is(bits@, s as int, e as int, false);
            let all = runs_from(bits@, i as int, true);
            let r1 = runs_from(bits@, s as int, false);
            assert(all =~= seq![(s - i) as nat] + r1);
            assert(all[0] == s - i && all[1] == e - s);
            if e < n {
                let r2 = runs_from(bits@, e as int, true);
                assert(r1 =~= seq![(e - s) as nat] + r2);
                assert(all.skip(2) =~= r2);
            } else {
                assert(r1 =~= seq![(e - s) as nat]);
                assert(all.skip(2) =~= Seq::<nat>::empty());
                lemma_run_end_is(bits@, e as int, e as int, true);
                assert(runs_from(bits@, e as int, true) =~= seq![0nat]);
                assert(ranges_of_runs(all.skip(2), (base + e) as nat) =~= ranges_of_runs(
                    runs_from(bits@, e as int, true),
                    (base + e) as nat,
                ));
            }
        }
        let ghost before = pairs(out@);
        out.push((base + s as u64, base + e as u64));
        proof {
            let range = ((base + s) as nat, (base + e) as nat);
            assert(pairs(out@) =~= before + seq![range]);
            let tail = ranges_of_runs(runs_from(bits@, e as int, true), (base + e) as nat);
            assert(before + (seq![range] + tail) =~= pairs(out@) + tail);
        }
        i = e;
    }
    proof {
        assert(pairs(out@) =~= pairs(old(out)@) + target);
    }
}

/// The first of `transfers`, from place `from` on, whose range holds the
/// chunk id `chunkid`.
pub open spec fn held(transfers: Seq<Transfer>, chunkid: u64, from: int) -> Option<Transfer>
    decreases transfers.len() - from,
{
    if from < 0 || from >= transfers.len() {
        None
    } else if transfers[from].start <= chunkid < transfers[from].end {
        Some(transfers[from])
    } else {
        held(transfers, chunkid, from + 1)
    }
}

/// What `held` finds is one of the transfers and holds the chunk id, and it
/// finds none only where no range holds it.
pub proof fn lemma_held(transfers: Seq<Transfer>, chunkid: u64, from: int)
    requires
        0 <= from,
    ensures
        match held(transfers, chunkid, from) {
            Some(t) => t.start <= chunkid < t.end && exists|i: int|
                from <= i < transfers.len() && #[trigger] transfers[i] == t,
            None => forall|i: int|
                from <= i < transfers.len() ==> !((#[trigger] transfers[i]).start <= chunkid
                    < transfers[i].end),
        },
    decreases transfers.len() - from,
{
    if from < transfers.len() && !(transfers[from].start <= chunkid < transfers[from].end) {
        lemma_held(transfers, chunkid, from + 1);
        match held(transfers, chunkid, from + 1) {
            Some(t) => {
                let i = choose|i: int|
                    from + 1 <= i < transfers.len() && #[trigger] transfers[i] == t;
                assert(from <= i < transfers.len() && transfers[i] == t);
            },
            None => {},
        }
    } else if from < transfers.len() {
        assert(transfers[from] == transfers[from]);
    }
}

/// The incoming side of the transfers with one peer.
#[derive(Debug)]
pub struct TransferIn {
    transfers: Vec<Transfer>,
    status_active: bool,
}

impl TransferIn {
    /// The blocks that come in, in the order of their announcements.
    pub closed spec fn transfers_spec(&self) -> Seq<Transfer> {
        self.transfers@
    }

    /// Whether status updates are being sent to the peer.
    pub closed spec fn status_active_spec(&self) -> bool {
        self.status_active
    }

    /// The ranges of the blocks lie one behind the other.
    pub open spec fn wf(&self) -> bool {
        lined_up(self.transfers_spec())
    }

    /// A side on which nothing comes in yet.
    pub fn new() -> (r: TransferIn)
        ensures
            r.wf(),
            r.transfers_spec().len() == 0,
            !r.status_active_spec(),
    {
        TransferIn { transfers: Vec::new(), status_active: false }
    }

    /// Whether a range was announced for the block `id`.
    fn has_block(&self, id: &BlockId) -> (r: bool)
        ensures
            r == announced(self.transfers@, id@),
    {
        let mut i: usize = 0;
        while i < self.transfers.len()
            invariant
                i <= self.transfers@.len(),
                forall|j: int| 0 <= j < i ==> (#[trigger] self.transfers@[j]).blockid@ != id@,
            decreases self.transfers@.len() - i,
        {
            let other: BlockId = self.transfers[i].blockid;
            if same_id(&other, id) {
                return true;
            }
            i += 1;
        }
        false
    }

    /// Takes up the announcement `res` of a block, where it can be taken up,
    /// and says whether it is the first one: then status updates are to
    /// start. Where it cannot, nothing changes.
    pub fn begin(&mut self, res: &BlockRequestResponse) -> (r: Result<bool, TransferError>)
        requires
            old(self).wf(),
        ensures
            final(self).wf(),
            match accepts(old(self).transfers_spec(), *res) {
                Ok(_) => {
                    &&& r == Ok::<bool, TransferError>(old(self).transfers_spec().len() == 0)
                    &&& final(self).transfers_spec() == old(self).transfers_spec().insert(
                        slot(old(self).transfers_spec(), res.start_id, 0),
                        Transfer { blockid: res.blockid, start: res.start_id, end: res.end_id },
                    )
                    &&& final(self).status_active_spec()
                },
                Err(e) => {
                    &&& r == Err::<bool, TransferError>(e)
                    &&& final(self).transfers_spec() == old(self).transfers_spec()
                    &&& final(self).status_active_spec() == old(self).status_active_spec()
                },
            },
    {
        if res.start_id > res.end_id || res.end_id - res.start_id != chunks_of(res.len) {
            return Err(TransferError::BadRange);
        }
        if usize::MAX as u64 - (CHUNK_SIZE as u64) < res.len {
            return Err(TransferError::BadRange);
        }
        if self.has_block(&res.blockid) {
            return Err(TransferError::Duplicate);
        }
        let n: usize = self.transfers.len();
        let mut at: usize = 0;
        while at < n && self.transfers[at].end <= res.start_id
            invariant
                at <= n == self.transfers@.len(),
                slot(self.transfers@, res.start_id, 0) == slot(
                    self.transfers@,
                    res.start_id,
                    at as int,
                ),
            decreases n - at,
        {
            at += 1;
        }
        if at < n && self.transfers[at].start < res.end_id {
            return Err(TransferError::Overlap);
        }
        let first: bool = n == 0;
        let ghost before = self.transfers_spec();
        let t = Transfer { blockid: res.blockid, start: res.start_id, end: res.end_id };
        proof {
            lemma_slot(before, res.start_id, 0);
            assert(forall|i: int|
                0 <= i < before.len() ==> (#[trigger] before[i]).start <= before[i].end);
            assert(forall|i: int, j: int|
                0 <= i < j < before.len() ==> (#[trigger] before[i]).end <= (
                #[trigger] before[j]).start);
        }
        self.transfers.insert(at, t);
        self.status_active = true;
        proof {
            let after = self.transfers_spec();
            assert(after == before.insert(at as int, t));
            assert forall|i: int| 0 <= i < after.len() implies (#[trigger] after[i]).start
                <= after[i].end by {
                if i < at {
                    assert(after[i] == before[i]);
                } else if i > at {
                    assert(after[i] == before[i - 1]);
                }
            }
            assert forall|i: int, j: int| 0 <= i < j < after.len() implies (
            #[trigger] after[i]).end <= (#[trigger] after[j]).start by {
                if i < at {
                    assert(after[i] == before[i]);
                    if j > at {
                        assert(after[j] == before[j - 1]);
                    }
                } else if i == at {
                    assert(after[j] == before[j - 1]);
                    if j - 1 > at {
                        assert(before[at as int].end <= before[j - 1].start);
                    }
                } else {
                    assert(after[i] == before[i - 1]);
                    assert(after[j] == before[j - 1]);
                }
            }
        }
        Ok(first)
    }

    /// Drops the announcement of the block `id`, where there is one.
    pub fn forget(&mut self, id: &BlockId)
        requires
            old(self).wf(),
        ensures
            final(self).wf(),
            final(self).status_active_spec() == old(self).status_active_spec(),
            !announced(final(self).transfers_spec(), id@),
            final(self).transfers_spec() == without(old(self).transfers_spec(), id@),
    {
        let ghost before = self.transfers@;
        let mut kept: Vec<Transfer> = Vec::new();
        let mut i: usize = 0;
        proof {
            assert(before.subrange(0, 0) =~= Seq::<Transfer>::empty());
            reveal(Seq::filter);
            assert(without(Seq::<Transfer>::empty(), id@) =~= Seq::<Transfer>::empty());
        }
        while i < self.transfers.len()
            invariant
                i <= self.transfers@.len(),
                self.transfers@ == before,
                self.status_active == old(self).status_active,
                kept@ == without(before.subrange(0, i as int), id@),
            decreases self.transfers@.len() - i,
        {
            let t: Transfer = self.transfers[i];
            proof {
                let head = before.subrange(0, i as int);
                let next = before.subrange(0, i + 1);
                assert(next =~= head.push(t));
                assert(next.drop_last() =~= head);
                reveal(Seq::filter);
            }
            if !same_id(&t.blockid, id) {
                kept.push(t);
            }
            i += 1;
        }
        proof {
            assert(before.subrange(0, i as int) =~= before);
            lemma_filter_keeps_order(before, id@);
        }
        self.transfers = kept;
    }

    /// The incoming block whose range holds the chunk id `chunkid`.
    pub fn transfer(&self, chunkid: u64) -> (r: Option<Transfer>)
        ensures
            r == held(self.transfers_spec(), chunkid, 0),
    {
        let mut i: usize = 0;
        while i < self.transfers.len()
            invariant
                i <= self.transfers@.len(),
                held(self.transfers@, chunkid, 0) == held(self.transfers@, chunkid, i as int),
            decreases self.transfers@.len() - i,
        {
            let t: Transfer = self.transfers[i];
            if t.start <= chunkid && chunkid < t.end {
                return Some(t);
            }
            i += 1;
        }
        None
    }

    /// Whether the announcement `res` can be taken up, and the reason where
    /// it cannot.
    pub fn check(&self, res: &BlockRequestResponse) -> (r: Result<(), TransferError>)
        ensures
            r.is_ok() == accepts(self.transfers_spec(), *res).is_ok(),
            r matches Err(e) ==> accepts(self.transfers_spec(), *res) == Err::<
                (),
                TransferError,
            >(e),
    {
        if res.start_id > res.end_id || res.end_id - res.start_id != chunks_of(res.len) {
            return Err(TransferError::BadRange);
        }
        if usize::MAX as u64 - (CHUNK_SIZE as u64) < res.len {
            return Err(TransferError::BadRange);
        }
        if self.has_block(&res.blockid) {
            return Err(TransferError::Duplicate);
        }
        let n: usize = self.transfers.len();
        let mut at: usize = 0;
        while at < n && self.transfers[at].end <= res.start_id
            invariant
                at <= n == self.transfers@.len(),
                slot(self.transfers@, res.start_id, 0) == slot(
                    self.transfers@,
                    res.start_id,
                    at as int,
                ),
            decreases n - at,
        {
            at += 1;
        }
        if at < n && self.transfers[at].start < res.end_id {
            return Err(TransferError::Overlap);
        }
        Ok(())
    }

    /// The status to send: for each incoming block that is still partial,
    /// the ranges of the chunk ids of its chunks that have not arrived.
    pub fn status_ranges(&self, blockdb: &BlockDb) -> (r: Vec<(u64, u64)>)
        requires
            self.wf(),
            blockdb.wf(),
        ensures
            pairs(r@) == status_of(self.transfers_spec(), *blockdb, 0),
    {
        let mut out: Vec<(u64, u64)> = Vec::new();
        let n: usize = self.transfers.len();
        proof {
            assert(pairs(out@) =~= Seq::<(nat, nat)>::empty());
        }
        let mut k: usize = 0;
        let ghost target = status_of(self.transfers@, *blockdb, 0);
        proof {
            assert(target =~= pairs(out@) + target);
        }
        while k < n
            invariant
                k <= n == self.transfers@.len(),
                blockdb.wf(),
                lined_up(self.transfers@),
                target == pairs(out@) + status_of(self.transfers@, *blockdb, k as nat),
            decreases n - k,
        {
            let t: Transfer = self.transfers[k];
            let ghost before = pairs(out@);
            let ghost rest = status_of(self.transfers@, *blockdb, (k + 1) as nat);
            if blockdb.contains(t.blockid) {
                match blockdb.get(t.blockid) {
                    Block::Partial(p) => {
                        let available: &Vec<bool> = p.available();
                        if available.len() as u64 == t.end - t.start {
                            ranges_of_bits(available, t.start, &mut out);
                        }
                    },
                    Block::Full(_) => {},
                }
            }
            proof {
                let mine = missing_of(t, *blockdb);
                assert(pairs(out@) == before + mine);
                assert(before + (mine + rest) =~= (before + mine) + rest);
            }
            k += 1;
        }
        proof {
            assert(target =~= pairs(out@));
        }
        out
    }
}

/// An id lies in one of two lists of ranges put together exactly where it
/// lies in one of either.
pub proof fn lemma_covered_concat(a: Seq<(nat, nat)>, b: Seq<(nat, nat)>, id: nat)
    ensures
        covered(a + b, id) == (covered(a, id) || covered(b, id)),
{
    let ab = a + b;
    if covered(a, id) {
        let k = choose|k: int| 0 <= k < a.len() && (#[trigger] a[k]).0 <= id < a[k].1;
        assert(ab[k] == a[k]);
    }
    if covered(b, id) {
        let k = choose|k: int| 0 <= k < b.len() && (#[trigger] b[k]).0 <= id < b[k].1;
        assert(ab[a.len() + k] == b[k]);
    }
    if covered(ab, id) {
        let k = choose|k: int| 0 <= k < ab.len() && (#[trigger] ab[k]).0 <= id < ab[k].1;
        if k < a.len() {
            assert(a[k] == ab[k]);
        } else {
            assert(b[k - a.len()] == ab[k]);
        }
    }
}

/// What is told as missing of a block lies in the range of the block.
pub proof fn lemma_missing_in_range(transfer: Transfer, blockdb: BlockDb, id: nat)
    requires
        transfer.start <= transfer.end,
        covered(missing_of(transfer, blockdb), id),
    ensures
        transfer.start <= id < transfer.end,
{
    let ranges = missing_of(transfer, blockdb);
    let k = choose|k: int| 0 <= k < ranges.len() && (#[trigger] ranges[k]).0 <= id < ranges[k].1;
    match blockdb.block(transfer.blockid@) {
        Block::Partial(p) => {
            let bits = p.available_spec();
            lemma_ranges_bounds(runs(bits), transfer.start as nat);
            lemma_runs_total(bits, 0, true);
        },
        Block::Full(_) => {},
    }
}

/// An id is told as missing from place `from` on exactly where it is told as
/// missing of one of the blocks from there on.
pub proof fn lemma_status_covers(transfers: Seq<Transfer>, blockdb: BlockDb, from: nat, id: nat)
    ensures
        covered(status_of(transfers, blockdb, from), id) == exists|j: int|
            from <= j < transfers.len() && covered(
                missing_of(#[trigger] transfers[j], blockdb),
                id,
            ),
    decreases transfers.len() - from,
{
    if from < transfers.len() {
        let head = missing_of(transfers[from as int], blockdb);
        let rest = status_of(transfers, blockdb, from + 1);
        lemma_covered_concat(head, rest, id);
        lemma_status_covers(transfers, blockdb, from + 1, id);
        if covered(rest, id) {
            let j = choose|j: int|
                from + 1 <= j < transfers.len() && covered(
                    missing_of(#[trigger] transfers[j], blockdb),
                    id,
                );
            assert(from <= j < transfers.len() && covered(missing_of(transfers[j], blockdb), id));
        }
        if exists|j: int|
            from <= j < transfers.len() && covered(
                missing_of(#[trigger] transfers[j], blockdb),
                id,
            ) {
            let j = choose|j: int|
                from <= j < transfers.len() && covered(
                    missing_of(#[trigger] transfers[j], blockdb),
                    id,
                );
            if j > from {
                assert(from + 1 <= j < transfers.len() && covered(
                    missing_of(transfers[j], blockdb),
                    id,
                ));
            }
        }
    } else {
        assert(status_of(transfers, blockdb, from) =~= Seq::<(nat, nat)>::empty());
    }
}

/// A status tells the truth: of a block that is partial in the store, with
/// one chunk for each id of its range, the id of a chunk is told as missing
/// exactly where the chunk has not arrived.
pub proof fn lemma_status_truthful(transfers: Seq<Transfer>, blockdb: BlockDb, k: int, chunk: int)
    requires
        lined_up(transfers),
        0 <= k < transfers.len(),
        blockdb.has(transfers[k].blockid@),
        blockdb.block(transfers[k].blockid@) matches Block::Partial(p) && p.available_spec().len()
            == transfers[k].end - transfers[k].start && 0 <= chunk < p.available_spec().len(),
    ensures
        blockdb.block(transfers[k].blockid@) matches Block::Partial(p) && covered(
            status_of(transfers, blockdb, 0),
            (transfers[k].start + chunk) as nat,
        ) == !p.available_spec()[chunk],
{
    let t = transfers[k];
    let id = (t.start + chunk) as nat;
    match blockdb.block(t.blockid@) {
        Block::Partial(p) => {
            let bits = p.available_spec();
            lemma_ranges_of_bits(bits, 0, t.start as nat);
            assert(covered(missing_of(t, blockdb), id) == !bits[chunk]);
            lemma_status_covers(transfers, blockdb, 0, id);
            if covered(status_of(transfers, blockdb, 0), id) {
                let j = choose|j: int|
                    0 <= j < transfers.len() && covered(
                        missing_of(#[trigger] transfers[j], blockdb),
                        id,
                    );
                lemma_missing_in_range(transfers[j], blockdb, id);
                if j != k {
                    lemma_inbound_disjoint(transfers, k, j, id as u64);
                }
            }
        },
        Block::Full(_) => {},
    }
}

/// `transfers` without those for the block `id`.
pub open spec fn without(transfers: Seq<Transfer>, id: Seq<u8>) -> Seq<Transfer> {
    transfers.filter(|t: Transfer| t.blockid@ != id)
}

/// Dropping the announcements of one block leaves the others lined up, and
/// none for that block.
pub proof fn lemma_filter_keeps_order(transfers: Seq<Transfer>, id: Seq<u8>)
    requires
        lined_up(transfers),
    ensures
        lined_up(without(transfers, id)),
        !announced(without(transfers, id), id),
        forall|i: int|
            0 <= i < without(transfers, id).len() ==> transfers.contains(
                #[trigger] without(transfers, id)[i],
            ),
    decreases transfers.len(),
{
    let keep = |t: Transfer| t.blockid@ != id;
    let kept = without(transfers, id);
    reveal(Seq::filter);
    if transfers.len() > 0 {
        let head = transfers.drop_last();
        let last = transfers.last();
        assert(lined_up(head)) by {
            assert forall|i: int| 0 <= i < head.len() implies (#[trigger] head[i]).start
                <= head[i].end by {
                assert(head[i] == transfers[i]);
            }
            assert forall|i: int, j: int| 0 <= i < j < head.len() implies (
            #[trigger] head[i]).end <= (#[trigger] head[j]).start by {
                assert(head[i] == transfers[i]);
                assert(head[j] == transfers[j]);
            }
        }
        lemma_filter_keeps_order(head, id);
        let kept_head = without(head, id);
        assert forall|i: int| 0 <= i < kept_head.len() implies (#[trigger] kept_head[i]).end
            <= last.start && transfers.contains(kept_head[i]) by {
            assert(head.contains(kept_head[i]));
            let j = choose|j: int| 0 <= j < head.len() && head[j] == kept_head[i];
            assert(transfers[j] == head[j]);
            assert(transfers[j].end <= transfers[transfers.len() - 1].start);
        }
        if keep(last) {
            assert(kept =~= kept_head.push(last));
            assert(transfers[transfers.len() - 1] == last);
            assert forall|i: int, j: int| 0 <= i < j < kept.len() implies (#[trigger] kept[i]).end
                <= (#[trigger] kept[j]).start by {
                if j < kept_head.len() {
                    assert(kept[i] == kept_head[i] && kept[j] == kept_head[j]);
                } else {
                    assert(kept[i] == kept_head[i]);
                }
            }
            assert forall|i: int| 0 <= i < kept.len() implies (#[trigger] kept[i]).start
                <= kept[i].end by {
                if i < kept_head.len() {
                    assert(kept[i] == kept_head[i]);
                }
            }
            assert forall|i: int| 0 <= i < kept.len() implies transfers.contains(
                #[trigger] kept[i],
            ) by {
                if i < kept_head.len() {
                    assert(kept[i] == kept_head[i]);
                }
            }
            if announced(kept, id) {
                let k = choose|k: int| 0 <= k < kept.len() && (#[trigger] kept[k]).blockid@ == id;
                if k < kept_head.len() {
                    assert(kept_head[k] == kept[k]);
                }
            }
        } else {
            assert(kept =~= kept_head);
        }
    } else {
        assert(kept =~= Seq::<Transfer>::empty());
    }
}

} // verus!
