//! The peers and what is done on each message from one of them: a function
//! from the state and the message to the next state and a list of effects
//! for the event loop to carry out.

use crate::blockdb::{
    keccak256, promotion, ready_at, same_id, written, Block, BlockDb, BlockId, BlockRef, Key,
    Partial, StoreError,
};
use crate::frontend::{
    chosen_root, intact, lemma_intact_written, reference_in, steps, verify, written_out,
    BlockType, Catalog, Child, Decoded, Frontend, FsOp, FsStep,
};
use crate::transfer::{
    accepts, allocated, held, slot, without, SendStep, Transfer, TransferError, TransferIn,
    TransferOut,
};
use crate::wire::{
    pairs, BlockRequest, BlockRequestResponse, Msg, RootUpdate, RootUpdateResponse,
    TransferPayload, TransferStatus,
};
use vstd::prelude::*;

verus! {

/// The name of a peer, as the event loop counts them.
pub type PeerId = u64;

/// The time between two sendings of a message that is sent until it is
/// answered, in milliseconds.
pub const RETRY_MILLIS: u64 = 1000;

/// Whether a peer has an open connection.
#[derive(Debug, Clone, Copy, PartialEq, Eq, Structural)]
pub enum ClientState {
    Known,
    New,
}

/// What is kept for a peer with an open connection.
#[derive(Debug)]
pub struct Client {
    /// The blocks that were asked for and not announced yet.
    pub pending_block_requests: Vec<BlockId>,
    /// Whether a root was announced to the peer and not answered yet.
    pub root_update_open: bool,
    /// The blocks that go out to the peer.
    pub transfer_out: TransferOut,
    /// The blocks that come in from the peer.
    pub transfer_in: TransferIn,
}

impl Client {
    /// Both sides of the transfers are well formed, and no block is asked
    /// for twice.
    pub open spec fn wf(&self) -> bool {
        &&& self.transfer_out.wf()
        &&& self.transfer_in.wf()
        &&& distinct(self.pending_block_requests@)
    }

    /// Whether the block `id` was asked for and not announced yet.
    pub open spec fn asked(&self, id: Seq<u8>) -> bool {
        listed(self.pending_block_requests@, id)
    }

    /// A client without requests and transfers, whose outgoing chunk ids
    /// start at `start`.
    pub fn new(start: u64) -> (r: Client)
        ensures
            r.wf(),
            r.pending_block_requests@.len() == 0,
            !r.root_update_open,
            r.transfer_out.next_alloc() == start,
            r.transfer_out.transfers_spec().len() == 0,
            r.transfer_out.cursor_spec().is_none(),
            r.transfer_out.todo_spec().len() == 0,
            r.transfer_in.transfers_spec().len() == 0,
            !r.transfer_in.status_active_spec(),
    {
        Client {
            pending_block_requests: Vec::new(),
            root_update_open: false,
            transfer_out: TransferOut::new(start),
            transfer_in: TransferIn::new(),
        }
    }

    /// The place of the open request for the block `id`.
    fn request_at(&self, id: &BlockId) -> (r: Option<usize>)
        ensures
            match r {
                Some(i) => i < self.pending_block_requests@.len()
                    && self.pending_block_requests@[i as int]@ == id@,
                None => !self.asked(id@),
            },
    {
        let mut i: usize = 0;
        while i < self.pending_block_requests.len()
            invariant
                i <= self.pending_block_requests@.len(),
                forall|j: int| 0 <= j < i ==> (#[trigger] self.pending_block_requests@[j])@ != id@,
            decreases self.pending_block_requests@.len() - i,
        {
            let other: BlockId = self.pending_block_requests[i];
            if same_id(&other, id) {
                return Some(i);
            }
            i += 1;
        }
        None
    }
}

impl Default for Client {
    /// A client without requests and transfers, whose outgoing chunk ids
    /// start at a number picked at random below 2 to the power of 32.
    fn default() -> (r: Client)
        ensures
            r.wf(),
            r.pending_block_requests@.len() == 0,
            !r.root_update_open,
            at_rest(r),
    {
        Client {
            pending_block_requests: Vec::new(),
            root_update_open: false,
            transfer_out: TransferOut::default(),
            transfer_in: TransferIn::new(),
        }
    }
}

/// A peer with an open connection.
#[derive(Debug)]
pub struct Peer {
    pub addr: PeerId,
    pub client: Client,
}

/// What the event loop is to do.
#[derive(Debug)]
pub enum Effect {
    /// Send the message to the peer, once.
    SendNow(Msg, PeerId),
    /// Send the message to the peer now, and again every `RETRY_MILLIS`
    /// milliseconds for as long as it is not answered.
    ScheduleRetry(Msg, PeerId),
    /// Start to send status updates to the peer.
    StartStatus(PeerId),
    /// A payload came from the peer: a status update may be due.
    NudgeStatus(PeerId),
    /// Start the sender that sends payloads to the peer.
    StartSender(PeerId),
    /// Open the block with the key and hand its content, which is of the
    /// kind `kind`, back.
    Decode { peer: PeerId, blockid: BlockId, key: Key, kind: BlockType },
    /// Write the tree out with these steps.
    Materialize(Vec<FsOp>),
}

/// `rand::random` at the type of a nonce: twelve bytes picked at random.
#[verifier::external_body]
fn random_nonce() -> (r: [u8; 12]) {
    rand::random::<[u8; 12]>()
}

/// The place of the first of `peers`, from place `from` on, with the name
/// `addr`.
pub open spec fn peer_at(peers: Seq<Peer>, addr: PeerId, from: int) -> Option<int>
    decreases peers.len() - from,
{
    if from < 0 || from >= peers.len() {
        None
    } else if peers[from].addr == addr {
        Some(from)
    } else {
        peer_at(peers, addr, from + 1)
    }
}

/// What `peer_at` finds is a place with that name, and the first such.
pub proof fn lemma_peer_at(peers: Seq<Peer>, addr: PeerId, from: int)
    requires
        0 <= from,
    ensures
        match peer_at(peers, addr, from) {
            Some(i) => from <= i < peers.len() && peers[i].addr == addr,
            None => forall|j: int| from <= j < peers.len() ==> (#[trigger] peers[j]).addr != addr,
        },
    decreases peers.len() - from,
{
    if from < peers.len() && peers[from].addr != addr {
        lemma_peer_at(peers, addr, from + 1);
    }
}

/// The block store, the content of its blocks, and the peers.
#[derive(Debug)]
pub struct Handler {
    blockdb: BlockDb,
    catalog: Catalog,
    peers: Vec<Peer>,
}

impl Handler {
    /// The block store.
    pub closed spec fn blockdb_spec(&self) -> BlockDb {
        self.blockdb
    }

    /// The content of the blocks.
    pub closed spec fn catalog_spec(&self) -> Catalog {
        self.catalog
    }

    /// The peers with an open connection, in the order in which they came.
    pub closed spec fn peers_spec(&self) -> Seq<Peer> {
        self.peers@
    }

    /// The store is well formed, and so is what is kept for each peer.
    pub open spec fn wf(&self) -> bool {
        self.blockdb_spec().wf() && all_wf(self.peers_spec())
    }

    /// Whether the peer `addr` has an open connection.
    pub open spec fn known(&self, addr: PeerId) -> bool {
        peer_at(self.peers_spec(), addr, 0).is_some()
    }

    /// What is kept for the peer `addr`.
    pub open spec fn client(&self, addr: PeerId) -> Client {
        self.peers_spec()[peer_at(self.peers_spec(), addr, 0).unwrap()].client
    }

    /// A handler over the store `blockdb` with the content `catalog` of its
    /// blocks, without peers.
    pub fn new(blockdb: BlockDb, catalog: Catalog) -> (r: Handler)
        requires
            blockdb.wf(),
        ensures
            r.wf(),
            r.blockdb_spec() == blockdb,
            r.catalog_spec() == catalog,
            r.peers_spec().len() == 0,
    {
        Handler { blockdb, catalog, peers: Vec::new() }
    }

    /// The block store.
    pub fn blockdb(&self) -> (r: &BlockDb)
        ensures
            *r == self.blockdb_spec(),
    {
        &self.blockdb
    }

    /// The content of the blocks.
    pub fn catalog(&self) -> (r: &Catalog)
        ensures
            *r == self.catalog_spec(),
    {
        &self.catalog
    }

    /// The place of the peer `addr`.
    fn position(&self, addr: PeerId) -> (r: Option<usize>)
        ensures
            r.is_some() == self.known(addr),
            match r {
                Some(i) => i < self.peers_spec().len() && peer_at(self.peers_spec(), addr, 0)
                    == Some(i as int) && self.peers_spec()[i as int].addr == addr,
                None => true,
            },
    {
        let mut i: usize = 0;
        while i < self.peers.len()
            invariant
                i <= self.peers@.len(),
                peer_at(self.peers@, addr, 0) == peer_at(self.peers@, addr, i as int),
            decreases self.peers@.len() - i,
        {
            if self.peers[i].addr == addr {
                return Some(i);
            }
            i += 1;
        }
        None
    }

    /// Whether the peer `addr` has an open connection.
    pub fn client_state(&self, addr: PeerId) -> (r: ClientState)
        ensures
            r == if self.known(addr) {
                ClientState::Known
            } else {
                ClientState::New
            },
    {
        match self.position(addr) {
            Some(_) => ClientState::Known,
            None => ClientState::New,
        }
    }

    /// Whether the root that `res` names is another than the root in force.
    pub fn needs_update(&self, res: &RootUpdateResponse) -> (r: bool)
        ensures
            r == (self.blockdb_spec().root_spec().blockid@ != res.to_blockid@),
    {
        !same_id(&self.blockdb.root().blockid, &res.to_blockid)
    }
}

/// No id is twice in `list`.
pub open spec fn distinct(list: Seq<BlockId>) -> bool {
    forall|i: int, j: int|
        0 <= i < j < list.len() ==> (#[trigger] list[i])@ != (#[trigger] list[j])@
}

/// Taking an id out of a list without doubles leaves a list without doubles
/// and without that id.
pub proof fn lemma_request_closed(list: Seq<BlockId>, at: int)
    requires
        distinct(list),
        0 <= at < list.len(),
    ensures
        distinct(list.remove(at)),
        !listed(list.remove(at), list[at]@),
{
    let rest = list.remove(at);
    assert forall|a: int, b: int| 0 <= a < b < rest.len() implies (#[trigger] rest[a])@ != (
    #[trigger] rest[b])@ by {
        let a0 = if a < at { a } else { a + 1 };
        let b0 = if b < at { b } else { b + 1 };
        assert(rest[a] == list[a0]);
        assert(rest[b] == list[b0]);
    }
    if listed(rest, list[at]@) {
        let k = choose|k: int| 0 <= k < rest.len() && (#[trigger] rest[k])@ == list[at]@;
        let k0 = if k < at { k } else { k + 1 };
        assert(rest[k] == list[k0]);
        if k0 < at {
            assert(list[k0]@ != list[at]@);
        } else {
            assert(list[at]@ != list[k0]@);
        }
    }
}

/// An id that is not in a list without doubles can go to its end.
pub proof fn lemma_request_opened(list: Seq<BlockId>, id: BlockId)
    requires
        distinct(list),
        !listed(list, id@),
    ensures
        distinct(list.push(id)),
{
    let more = list.push(id);
    assert forall|a: int, b: int| 0 <= a < b < more.len() implies (#[trigger] more[a])@ != (
    #[trigger] more[b])@ by {
        assert(more[a] == list[a]);
        if b < list.len() {
            assert(more[b] == list[b]);
        }
    }
}

/// Whether one of `list` is the id `id`.
pub open spec fn listed(list: Seq<BlockId>, id: Seq<u8>) -> bool {
    exists|i: int| 0 <= i < list.len() && (#[trigger] list[i])@ == id
}

/// `list` with `id` at its end, unless it holds `id` already.
pub open spec fn asked_also(list: Seq<BlockId>, id: BlockId) -> Seq<BlockId> {
    if listed(list, id@) {
        list
    } else {
        list.push(id)
    }
}

/// No block comes in or goes out for the peer yet: no range is noted on
/// either side, no status updates run, nothing is known to be missing at the
/// peer, no chunk is to be sent, and the chunk ids of what goes out start
/// below 2 to the power of 32.
pub open spec fn at_rest(client: Client) -> bool {
    &&& client.transfer_in.transfers_spec().len() == 0
    &&& !client.transfer_in.status_active_spec()
    &&& client.transfer_out.transfers_spec().len() == 0
    &&& client.transfer_out.todo_spec().len() == 0
    &&& client.transfer_out.cursor_spec().is_none()
    &&& client.transfer_out.next_alloc() <= u32::MAX
}

/// What is kept for a peer after its root was announced to it: the
/// announcement is open. A peer that had a connection keeps what was kept
/// for it; for another, nothing is asked for and no block comes in or goes
/// out yet.
pub open spec fn connected(known: bool, before: Client, after: Client) -> bool {
    &&& after.root_update_open
    &&& if known {
        &&& after.pending_block_requests == before.pending_block_requests
        &&& after.transfer_in == before.transfer_in
        &&& after.transfer_out == before.transfer_out
    } else {
        &&& after.pending_block_requests@.len() == 0
        &&& at_rest(after)
    }
}

/// `after` is `before` but for the blocks that go out to the peer.
pub open spec fn incoming_kept(before: Client, after: Client) -> bool {
    &&& after.pending_block_requests == before.pending_block_requests
    &&& after.root_update_open == before.root_update_open
    &&& after.transfer_in == before.transfer_in
}

/// `list` without the request for the block `id`, which is one of it.
pub open spec fn answered(list: Seq<BlockId>, id: Seq<u8>) -> Seq<BlockId> {
    list.remove(choose|i: int| 0 <= i < list.len() && (#[trigger] list[i])@ == id)
}

/// In a list without doubles, the request for a block is the one at the
/// place where the block stands.
pub proof fn lemma_answered(list: Seq<BlockId>, at: int)
    requires
        distinct(list),
        0 <= at < list.len(),
    ensures
        answered(list, list[at]@) == list.remove(at),
{
    let id = list[at]@;
    let i = choose|i: int| 0 <= i < list.len() && (#[trigger] list[i])@ == id;
    if i < at {
        assert(list[i]@ != list[at]@);
    } else if at < i {
        assert(list[at]@ != list[i]@);
    }
}

/// `after` is `before` but for what is kept for the peer at place `i`.
pub open spec fn same_but(before: Seq<Peer>, after: Seq<Peer>, i: int) -> bool {
    &&& after.len() == before.len()
    &&& 0 <= i < before.len()
    &&& after[i].addr == before[i].addr
    &&& forall|j: int| 0 <= j < before.len() && j != i ==> #[trigger] after[j] == before[j]
}

/// `after` is `before` but for what is kept for the peer `addr`: where the
/// peer has no open connection, nothing has changed.
pub open spec fn only_changed(before: Seq<Peer>, after: Seq<Peer>, addr: PeerId) -> bool {
    match peer_at(before, addr, 0) {
        Some(i) => same_but(before, after, i),
        None => after == before,
    }
}

/// `after` is `before` with one more peer at its end, whose name is `addr`.
pub open spec fn one_more(before: Seq<Peer>, after: Seq<Peer>, addr: PeerId) -> bool {
    &&& after.len() == before.len() + 1
    &&& after.last().addr == addr
    &&& forall|j: int| 0 <= j < before.len() ==> #[trigger] after[j] == before[j]
}

/// Changing what is kept for one peer leaves each name at its place.
pub proof fn lemma_same_but(before: Seq<Peer>, after: Seq<Peer>, i: int, addr: PeerId, from: int)
    requires
        same_but(before, after, i),
        0 <= from,
    ensures
        peer_at(after, addr, from) == peer_at(before, addr, from),
    decreases before.len() - from,
{
    if from < before.len() {
        if from != i {
            assert(after[from] == before[from]);
        }
        lemma_same_but(before, after, i, addr, from + 1);
    }
}

/// Each name is found at the same place of `after` as of `before`.
pub open spec fn same_names(before: Seq<Peer>, after: Seq<Peer>) -> bool {
    forall|addr: PeerId| #[trigger] peer_at(after, addr, 0) == peer_at(before, addr, 0)
}

/// What is kept for each of `peers` is well formed.
pub open spec fn all_wf(peers: Seq<Peer>) -> bool {
    forall|i: int| 0 <= i < peers.len() ==> (#[trigger] peers[i]).client.wf()
}

/// Changing what is kept for one peer into something well formed leaves
/// each name at its place and all of it well formed.
pub proof fn lemma_one_changed(before: Seq<Peer>, after: Seq<Peer>, i: int)
    requires
        same_but(before, after, i),
        all_wf(before),
        after[i].client.wf(),
    ensures
        all_wf(after),
        same_names(before, after),
{
    assert forall|j: int| 0 <= j < after.len() implies (#[trigger] after[j]).client.wf() by {
        if j != i {
            assert(after[j] == before[j]);
        }
    }
    assert forall|addr: PeerId| #[trigger] peer_at(after, addr, 0) == peer_at(before, addr, 0) by {
        lemma_same_but(before, after, i, addr, 0);
    }
}

/// A new peer at the end, with something well formed kept for it, leaves all
/// of it well formed, the others at their places, and is found under its
/// name where that name was not taken.
pub proof fn lemma_one_added(before: Seq<Peer>, peer: Peer)
    requires
        all_wf(before),
        peer.client.wf(),
    ensures
        all_wf(before.push(peer)),
        forall|addr: PeerId| #[trigger]
            peer_at(before.push(peer), addr, 0) == if peer_at(before, addr, 0).is_some() {
                peer_at(before, addr, 0)
            } else if peer.addr == addr {
                Some(before.len() as int)
            } else {
                None
            },
{
    let after = before.push(peer);
    assert forall|j: int| 0 <= j < after.len() implies (#[trigger] after[j]).client.wf() by {
        if j < before.len() {
            assert(after[j] == before[j]);
        }
    }
    assert forall|addr: PeerId| #[trigger]
        peer_at(after, addr, 0) == if peer_at(before, addr, 0).is_some() {
            peer_at(before, addr, 0)
        } else if peer.addr == addr {
            Some(before.len() as int)
        } else {
            None
        } by {
        lemma_peer_pushed(before, peer, addr, 0);
    }
}

/// A new peer at the end leaves the others at their places and is found
/// under its name where that name was not taken.
pub proof fn lemma_peer_pushed(before: Seq<Peer>, peer: Peer, addr: PeerId, from: int)
    requires
        0 <= from <= before.len(),
    ensures
        peer_at(before.push(peer), addr, from) == if peer_at(before, addr, from).is_some() {
            peer_at(before, addr, from)
        } else if peer.addr == addr {
            Some(before.len() as int)
        } else {
            None
        },
    decreases before.len() - from,
{
    let after = before.push(peer);
    if from < before.len() {
        assert(after[from] == before[from]);
        lemma_peer_pushed(before, peer, addr, from + 1);
    } else {
        assert(after[from] == peer);
        assert(peer_at(after, addr, from + 1).is_none());
    }
}

impl Handler {
    /// What is sent to the peer `addr` in answer to a request for the block
    /// `id`: the range of chunk ids of the block and its length. The peer has
    /// an open connection, the store has the block in full, and the block has
    /// a range among the outgoing transfers of the peer or gets one.
    pub open spec fn served(&self, addr: PeerId, id: BlockId) -> Option<(u64, u64, u64)> {
        let store = self.blockdb_spec();
        if self.known(addr) && store.has(id@) && store.block(id@) is Full {
            let len = store.block(id@).data_spec().len() as u64;
            let out = self.client(addr).transfer_out;
            match allocated(out.transfers_spec(), out.next_alloc(), id, len).2 {
                Some((from, to)) => Some((from, to, len)),
                None => None,
            }
        } else {
            None
        }
    }

    /// Announces the root in force to the peer `srv`, with which a connection
    /// is opened where there is none: the announcement is to be sent until it
    /// is answered.
    pub fn connect(&mut self, srv: PeerId) -> (effects: Vec<Effect>)
        requires
            old(self).wf(),
        ensures
            final(self).wf(),
            final(self).blockdb_spec() == old(self).blockdb_spec(),
            final(self).catalog_spec() == old(self).catalog_spec(),
            final(self).known(srv),
            forall|other: PeerId|
                other != srv ==> final(self).known(other) == old(self).known(other),
            connected(
                old(self).known(srv),
                old(self).client(srv),
                final(self).client(srv),
            ),
            if old(self).known(srv) {
                only_changed(old(self).peers_spec(), final(self).peers_spec(), srv)
            } else {
                one_more(old(self).peers_spec(), final(self).peers_spec(), srv)
            },
            effects@.len() == 1,
            effects@[0] matches Effect::ScheduleRetry(Msg::RootUpdate(update), to) && to == srv
                && update.from_blockid@ == Seq::new(32, |i: int| 0u8)
                && old(self).blockdb_spec().root_spec().same(&update.to_blockref),
    {
        let ghost before = self.peers@;
        match self.position(srv) {
            Some(i) => {
                self.peers[i].client.root_update_open = true;
                proof {
                    assert(before[i as int].client.wf());
                    lemma_one_changed(before, self.peers@, i as int);
                }
            },
            None => {
                let mut client: Client = Client::default();
                client.root_update_open = true;
                let peer = Peer { addr: srv, client };
                self.peers.push(peer);
                proof {
                    lemma_one_added(before, peer);
                }
            },
        }
        let update = RootUpdate {
            nonce: random_nonce(),
            from_blockid: [0u8; 32],
            to_blockref: self.blockdb.root().duplicate(),
        };
        proof {
            assert(update.from_blockid@ =~= Seq::new(32, |i: int| 0u8));
        }
        let mut effects: Vec<Effect> = Vec::new();
        effects.push(Effect::ScheduleRetry(Msg::RootUpdate(update), srv));
        effects
    }

    /// Notes that the block `blockid` is asked of the peer at place `i`,
    /// unless it is already, and gives the request, which is to be sent until
    /// it is answered.
    fn send_block_request(&mut self, i: usize, blockid: BlockId) -> (effect: Effect)
        requires
            old(self).wf(),
            i < old(self).peers_spec().len(),
        ensures
            final(self).wf(),
            final(self).blockdb_spec() == old(self).blockdb_spec(),
            final(self).catalog_spec() == old(self).catalog_spec(),
            same_but(old(self).peers_spec(), final(self).peers_spec(), i as int),
            same_names(old(self).peers_spec(), final(self).peers_spec()),
            final(self).peers_spec()[i as int].client.pending_block_requests@ == asked_also(
                old(self).peers_spec()[i as int].client.pending_block_requests@,
                blockid,
            ),
            kept(
                old(self).peers_spec()[i as int].client,
                final(self).peers_spec()[i as int].client,
            ),
            effect == Effect::ScheduleRetry(
                Msg::BlockRequest(BlockRequest { blockid }),
                old(self).peers_spec()[i as int].addr,
            ),
    {
        let ghost before = self.peers@;
        let addr: PeerId = self.peers[i].addr;
        proof {
            assert(same_names(before, before));
        }
        if self.peers[i].client.request_at(&blockid).is_none() {
            self.peers[i].client.pending_block_requests.push(blockid);
            proof {
                assert(before[i as int].client.wf());
                lemma_request_opened(before[i as int].client.pending_block_requests@, blockid);
                lemma_one_changed(before, self.peers@, i as int);
            }
        }
        Effect::ScheduleRetry(Msg::BlockRequest(BlockRequest { blockid }), addr)
    }

    /// Takes in the announcement `update` of a root from the peer `addr`,
    /// which has no open connection. Where the announced root is the root in
    /// force, the peer is told so and nothing changes. Where it is another
    /// and no root is pending, it becomes the pending root, a connection is
    /// opened, and its block is asked of the peer. Where a root is pending, or
    /// the peer has an open connection, nothing is done.
    pub fn unconnected_root_update(&mut self, addr: PeerId, update: RootUpdate) -> (effects: Vec<
        Effect,
    >)
        requires
            old(self).wf(),
        ensures
            final(self).wf(),
            root_update_post(*old(self), addr, update, *final(self), effects@),
    {
        let mut effects: Vec<Effect> = Vec::new();
        if self.position(addr).is_some() {
            return effects;
        }
        let blockid: BlockId = update.to_blockref.blockid;
        if same_id(&blockid, &self.blockdb.root().blockid) {
            let root: &BlockRef = self.blockdb.root();
            let msg = Msg::RootUpdateResponse(
                RootUpdateResponse {
                    from_blockid: root.blockid,
                    to_blockid: root.blockid,
                    to_key: root.key,
                },
            );
            effects.push(Effect::SendNow(msg, addr));
            proof {
                assert(effects@ =~= seq![Effect::SendNow(msg, addr)]);
            }
            return effects;
        }
        if self.blockdb.pending_root().is_some() {
            return effects;
        }
        let ghost before = self.peers@;
        let _ = self.blockdb.set_pending_root(update.to_blockref);
        let peer = Peer { addr, client: Client::default() };
        self.peers.push(peer);
        proof {
            lemma_one_added(before, peer);
        }
        let i: usize = self.peers.len() - 1;
        let effect: Effect = self.send_block_request(i, blockid);
        proof {
            assert(self.peers@[i as int].client.pending_block_requests@ =~= seq![blockid]);
        }
        effects.push(effect);
        proof {
            assert(effects@ =~= seq![effect]);
        }
        effects
    }
}

impl Handler {
    /// Takes in the answer `res` to an announcement from the peer `addr`.
    /// The announcement is answered. Where the peer has another root than
    /// the root in force and no root is pending, its root becomes the pending
    /// root and its block is asked of the peer. Where the peer has no open
    /// connection, nothing is done.
    pub fn root_update_response(&mut self, addr: PeerId, res: RootUpdateResponse) -> (effects: Vec<
        Effect,
    >)
        requires
            old(self).wf(),
        ensures
            final(self).wf(),
            response_post(*old(self), addr, res, *final(self), effects@),
    {
        let mut effects: Vec<Effect> = Vec::new();
        let i: usize = match self.position(addr) {
            Some(i) => i,
            None => {
                return effects;
            },
        };
        let ghost before = self.peers@;
        self.peers[i].client.root_update_open = false;
        proof {
            assert(before[i as int].client.wf());
            lemma_one_changed(before, self.peers@, i as int);
        }
        if !self.needs_update(&res) || self.blockdb.pending_root().is_some() {
            return effects;
        }
        let pending = BlockRef::new(res.to_blockid, res.to_key, Vec::new());
        let _ = self.blockdb.set_pending_root(pending);
        let effect: Effect = self.send_block_request(i, res.to_blockid);
        effects.push(effect);
        proof {
            assert(effects@ =~= seq![effect]);
        }
        effects
    }

    /// Answers the request `req` of the peer `addr` for a block with the
    /// range of chunk ids under which the block goes out, and its length.
    /// The same request gets the same answer. Nothing is answered where the
    /// peer has no open connection, the store does not have the block in
    /// full, or the chunk ids have run out.
    pub fn block_request(&mut self, addr: PeerId, req: BlockRequest) -> (effects: Vec<Effect>)
        requires
            old(self).wf(),
        ensures
            final(self).wf(),
            request_post(*old(self), addr, req, *final(self), effects@),
    {
        let mut effects: Vec<Effect> = Vec::new();
        let i: usize = match self.position(addr) {
            Some(i) => i,
            None => {
                return effects;
            },
        };
        if !self.blockdb.contains(req.blockid) {
            return effects;
        }
        let len: u64 = match self.blockdb.get(req.blockid) {
            Block::Full(full) => full.data().len() as u64,
            Block::Partial(_) => {
                return effects;
            },
        };
        let ghost before = self.peers@;
        let range: Option<(u64, u64)> = self.peers[i].client.transfer_out.block_request(
            req.blockid,
            len,
        );
        proof {
            assert(before[i as int].client.wf());
            lemma_one_changed(before, self.peers@, i as int);
            if range.is_none() {
                assert forall|other: PeerId| self.known(other) implies self.client(
                    other,
                ).transfer_out.transfers_spec() == old(self).client(
                    other,
                ).transfer_out.transfers_spec() by {
                    lemma_peer_at(before, other, 0);
                    let j = peer_at(before, other, 0).unwrap();
                    if j != i {
                        assert(self.peers@[j] == before[j]);
                    }
                }
            }
        }
        match range {
            Some((from, to)) => {
                let msg = Msg::BlockRequestResponse(
                    BlockRequestResponse { blockid: req.blockid, start_id: from, end_id: to, len },
                );
                effects.push(Effect::SendNow(msg, addr));
                proof {
                    assert(effects@ =~= seq![Effect::SendNow(msg, addr)]);
                }
            },
            None => {},
        }
        effects
    }

    /// Takes in the ranges that the peer `addr` misses. Where the sender for
    /// the peer was at rest and something is missing, it is to be started.
    pub fn transfer_status(&mut self, addr: PeerId, status: TransferStatus) -> (effects: Vec<
        Effect,
    >)
        requires
            old(self).wf(),
        ensures
            final(self).wf(),
            status_post(*old(self), addr, status, *final(self), effects@),
    {
        let mut effects: Vec<Effect> = Vec::new();
        let i: usize = match self.position(addr) {
            Some(i) => i,
            None => {
                return effects;
            },
        };
        let ghost before = self.peers@;
        let launch: bool = self.peers[i].client.transfer_out.transfer_status(status.missing_ranges);
        proof {
            assert(before[i as int].client.wf());
            lemma_one_changed(before, self.peers@, i as int);
        }
        if launch {
            effects.push(Effect::StartSender(addr));
            proof {
                assert(effects@ =~= seq![Effect::StartSender(addr)]);
            }
        }
        effects
    }

    /// One step of the sender for the peer `addr`: what `next_payload` of its
    /// outgoing transfers gives, with nothing else changed. A peer without
    /// an open connection has nothing to send.
    pub fn next_payload(&mut self, addr: PeerId) -> (r: SendStep)
        requires
            old(self).wf(),
        ensures
            final(self).wf(),
            final(self).blockdb_spec() == old(self).blockdb_spec(),
            final(self).catalog_spec() == old(self).catalog_spec(),
            forall|other: PeerId| final(self).known(other) == old(self).known(other),
            only_changed(old(self).peers_spec(), final(self).peers_spec(), addr),
            !old(self).known(addr) ==> r is Idle,
            old(self).known(addr) ==> {
                let before = old(self).client(addr).transfer_out;
                let after = final(self).client(addr).transfer_out;
                &&& incoming_kept(old(self).client(addr), final(self).client(addr))
                &&& after.todo_spec() == before.todo_spec()
                &&& after.transfers_spec() == before.transfers_spec()
                &&& after.next_alloc() == before.next_alloc()
                &&& match before.cursor_spec() {
                    None => r is Idle && after.cursor_spec().is_none(),
                    Some(c) => {
                        &&& crate::codec::least_missing(
                            before.todo_spec(),
                            c as nat + 1,
                            after.cursor_spec(),
                        )
                        &&& match crate::transfer::sendable(
                            before.transfers_spec(),
                            old(self).blockdb_spec(),
                            c,
                        ) {
                            Some(data) => r matches SendStep::Payload(p) && p.chunkid == c
                                && p.data@ == data,
                            None => r is Skip,
                        }
                    },
                }
            },
    {
        let i: usize = match self.position(addr) {
            Some(i) => i,
            None => {
                return SendStep::Idle;
            },
        };
        let ghost before = self.peers@;
        let r: SendStep = self.peers[i].client.transfer_out.next_payload(&self.blockdb);
        proof {
            assert(before[i as int].client.wf());
            lemma_one_changed(before, self.peers@, i as int);
        }
        r
    }

    /// The status to send to the peer `addr`: the ranges of the chunk ids
    /// that are missing of the blocks that come in from it. A peer without
    /// an open connection gets none.
    pub fn status_update(&self, addr: PeerId) -> (r: Option<TransferStatus>)
        requires
            self.wf(),
        ensures
            r.is_some() == self.known(addr),
            r matches Some(status) ==> pairs(status.missing_ranges@) == crate::transfer::status_of(
                self.client(addr).transfer_in.transfers_spec(),
                self.blockdb_spec(),
                0,
            ),
    {
        match self.position(addr) {
            Some(i) => Some(
                TransferStatus {
                    missing_ranges: self.peers[i].client.transfer_in.status_ranges(&self.blockdb),
                },
            ),
            None => None,
        }
    }

    /// Whether the announcement of the root to the peer `addr` is still
    /// unanswered, so that it is to be sent again.
    pub fn root_update_due(&self, addr: PeerId) -> (r: bool)
        ensures
            r == (self.known(addr) && self.client(addr).root_update_open),
    {
        match self.position(addr) {
            Some(i) => self.peers[i].client.root_update_open,
            None => false,
        }
    }

    /// Whether the request for the block `blockid` to the peer `addr` is
    /// still open, so that it is to be sent again.
    pub fn retry_due(&self, addr: PeerId, blockid: &BlockId) -> (r: bool)
        ensures
            r == (self.known(addr) && self.client(addr).asked(blockid@)),
    {
        match self.position(addr) {
            Some(i) => self.peers[i].client.request_at(blockid).is_some(),
            None => false,
        }
    }
}

/// `after` is `before` with the partial block `id` in the store for sure:
/// where `before` has no block `id`, a partial block of `len` zero bytes of
/// which no chunk has arrived stands at the end.
pub open spec fn expected(before: Seq<Block>, id: Seq<u8>, len: nat, after: Seq<Block>) -> bool {
    if crate::blockdb::has_id(before, id) {
        after == before
    } else {
        &&& after.len() == before.len() + 1
        &&& after.subrange(0, before.len() as int) == before
        &&& after.last() matches Block::Partial(p) && p.id_spec() == id && p.data_spec()
            == Seq::new(len, |i: int| 0u8) && p.available_spec() == Seq::new(
            crate::blockdb::chunk_count(len),
            |i: int| false,
        )
    }
}

/// A block without bytes waits for no chunk. Where the store did not have
/// the block `id` and a partial block of no bytes was put there for it, the
/// promotion that follows makes the block full at once, with no bytes, if
/// the digest of no bytes is `id`; if it is not, the block is discarded at
/// once.
pub proof fn lemma_empty_block_full_at_once(
    before: Seq<Block>,
    id: Seq<u8>,
    mid: Seq<Block>,
    after: Seq<Block>,
    outcome: Result<bool, StoreError>,
)
    requires
        !crate::blockdb::has_id(before, id),
        expected(before, id, 0, mid),
        promotion(mid, id, after, outcome),
    ensures
        crate::blockdb::chunk_count(0) == 0,
        if keccak256(Seq::<u8>::empty()) == id {
            &&& outcome == Ok::<bool, StoreError>(true)
            &&& after.len() == before.len() + 1
            &&& after.last() is Full
            &&& after.last().id_spec() == id
            &&& after.last().data_spec() == Seq::<u8>::empty()
            &&& after.subrange(0, before.len() as int) == before
        } else {
            &&& outcome == Err::<bool, StoreError>(StoreError::DigestMismatch)
            &&& after == before
        },
{
    let last = before.len() as int;
    assert(mid.last().data_spec() =~= Seq::<u8>::empty());
    assert(ready_at(mid, id, last));
    let i = choose|i: int| ready_at(mid, id, i);
    if i < last {
        assert(mid.subrange(0, last)[i] == mid[i]);
        assert(before[i].id_spec() == id);
    }
    if keccak256(Seq::<u8>::empty()) == id {
        assert(after.subrange(0, last) =~= before) by {
            assert forall|j: int| 0 <= j < last implies after[j] == before[j] by {
                assert(mid.subrange(0, last)[j] == mid[j]);
            }
        }
    } else {
        assert(mid.remove(last) =~= mid.subrange(0, last));
    }
}

/// `after` is `before` with the chunk `index` of the partial block at place
/// `at` overwritten by the start of `chunk` and marked as arrived.
pub open spec fn stored(
    before: Seq<Block>,
    at: int,
    index: nat,
    chunk: Seq<u8>,
    after: Seq<Block>,
) -> bool {
    &&& 0 <= at < before.len()
    &&& after.len() == before.len()
    &&& forall|j: int| 0 <= j < before.len() && j != at ==> #[trigger] after[j] == before[j]
    &&& before[at] matches Block::Partial(p) && after[at] matches Block::Partial(q) && q.id_spec()
        == p.id_spec() && q.data_spec() == written(p.data_spec(), index, chunk)
        && q.available_spec() == p.available_spec().update(index as int, true)
}

/// What is to be done once the promotion of the block `blockid`, which came
/// from the peer `addr`, has ended with `outcome`. A block that became full
/// is to be opened, where `reference` gives the key and the kind under which
/// it is named. A block whose bytes have another digest is to be asked for
/// again.
pub open spec fn settled(
    outcome: Result<bool, StoreError>,
    addr: PeerId,
    blockid: BlockId,
    reference: Option<(Key, BlockType)>,
) -> Seq<Effect> {
    match outcome {
        Ok(true) => match reference {
            Some((key, kind)) => seq![Effect::Decode { peer: addr, blockid, key, kind }],
            None => Seq::empty(),
        },
        Ok(false) => Seq::empty(),
        Err(_) => seq![Effect::ScheduleRetry(Msg::BlockRequest(BlockRequest { blockid }), addr)],
    }
}

/// Appends `more` to `effects`.
fn join(effects: &mut Vec<Effect>, more: Vec<Effect>)
    ensures
        final(effects)@ == old(effects)@ + more@,
{
    let mut more = more;
    effects.append(&mut more);
}

impl Handler {
    /// The key and the kind under which the block `id` is named: by the
    /// pending root, as a directory, or by the known content of a block.
    pub open spec fn reference(&self, id: Seq<u8>) -> Option<(Key, BlockType)> {
        match self.blockdb_spec().pending_spec() {
            Some(pending) => if pending.blockid@ == id {
                Some((pending.key, BlockType::Directory))
            } else {
                reference_in(self.catalog_spec().entries_spec(), id, 0)
            },
            None => reference_in(self.catalog_spec().entries_spec(), id, 0),
        }
    }

    /// The key and the kind under which the block `id` is named.
    fn reference_to(&self, id: &BlockId) -> (r: Option<(Key, BlockType)>)
        ensures
            r == self.reference(id@),
    {
        match self.blockdb.pending_root() {
            Some(pending) => {
                if same_id(&pending.blockid, id) {
                    return Some((pending.key, BlockType::Directory));
                }
            },
            None => {},
        }
        self.catalog.reference_to(id)
    }

    /// Does what is to be done once the promotion of the block `blockid`,
    /// which came from the peer at place `i`, has ended with `outcome`. A
    /// block whose bytes have another digest is forgotten among the incoming
    /// transfers and noted as asked for.
    fn settle(&mut self, i: usize, blockid: BlockId, outcome: Result<bool, StoreError>) -> (effects:
        Vec<Effect>)
        requires
            old(self).wf(),
            i < old(self).peers_spec().len(),
        ensures
            final(self).wf(),
            final(self).blockdb_spec() == old(self).blockdb_spec(),
            final(self).catalog_spec() == old(self).catalog_spec(),
            effects@ == settled(
                outcome,
                old(self).peers_spec()[i as int].addr,
                blockid,
                old(self).reference(blockid@),
            ),
            same_names(old(self).peers_spec(), final(self).peers_spec()),
            outcome.is_ok() ==> final(self).peers_spec() == old(self).peers_spec(),
            outcome.is_err() ==> {
                &&& same_but(old(self).peers_spec(), final(self).peers_spec(), i as int)
                &&& refused(
                    old(self).peers_spec()[i as int].client,
                    final(self).peers_spec()[i as int].client,
                    blockid,
                )
            },
    {
        let mut effects: Vec<Effect> = Vec::new();
        let addr: PeerId = self.peers[i].addr;
        proof {
            assert(same_names(self.peers@, self.peers@));
        }
        match outcome {
            Ok(true) => {
                match self.reference_to(&blockid) {
                    Some((key, kind)) => {
                        let e = Effect::Decode { peer: addr, blockid, key, kind };
                        effects.push(e);
                        proof {
                            assert(effects@ =~= seq![e]);
                        }
                    },
                    None => {},
                }
            },
            Ok(false) => {},
            Err(_) => {
                let ghost before = self.peers@;
                self.peers[i].client.transfer_in.forget(&blockid);
                let ghost mid = self.peers@;
                proof {
                    assert(before[i as int].client.wf());
                    lemma_one_changed(before, mid, i as int);
                }
                let e: Effect = self.send_block_request(i, blockid);
                effects.push(e);
                proof {
                    assert(effects@ =~= seq![e]);
                    let after = self.peers@;
                    assert forall|j: int|
                        0 <= j < before.len() && j != i implies #[trigger] after[j]
                        == before[j] by {
                        assert(after[j] == mid[j]);
                    }
                }
            },
        }
        effects
    }

    /// Takes in the announcement `res` of a block from the peer `addr`.
    /// Where it is taken up, the request is closed, the range is noted, a
    /// partial block of the announced length is put into the store unless
    /// the store has the block already, and status updates are to start with
    /// the first block. A block without chunks is promoted at once. Where it
    /// is not taken up, nothing is done, and the result is the reason.
    pub fn block_request_response(&mut self, addr: PeerId, res: BlockRequestResponse) -> (r: Result<
        Vec<Effect>,
        TransferError,
    >)
        requires
            old(self).wf(),
        ensures
            final(self).wf(),
            announced_post(*old(self), addr, res, *final(self), seen(r)),
    {
        let mut effects: Vec<Effect> = Vec::new();
        let i: usize = match self.position(addr) {
            Some(i) => i,
            None => {
                return Err(TransferError::UnknownPeer);
            },
        };
        let at: usize = match self.peers[i].client.request_at(&res.blockid) {
            Some(at) => at,
            None => {
                return Err(TransferError::NotAsked);
            },
        };
        match self.peers[i].client.transfer_in.check(&res) {
            Ok(_) => {},
            Err(e) => {
                return Err(e);
            },
        }
        let ghost before = self.peers@;
        let ghost blocks0 = self.blockdb.blocks_spec();
        let ghost reference = self.reference(res.blockid@);
        proof {
            assert(old(self).known(addr));
            assert(old(self).client(addr) == before[i as int].client);
            assert(before[i as int].client.pending_block_requests@[at as int]@ == res.blockid@);
            assert(old(self).client(addr).asked(res.blockid@));
            assert(accepts(old(self).client(addr).transfer_in.transfers_spec(), res).is_ok());
        }
        self.peers[i].client.pending_block_requests.remove(at);
        let first: bool = match self.peers[i].client.transfer_in.begin(&res) {
            Ok(first) => first,
            Err(_) => false,
        };
        let ghost mid_peers = self.peers@;
        proof {
            assert(before[i as int].client.wf());
            lemma_request_closed(before[i as int].client.pending_block_requests@, at as int);
            lemma_answered(before[i as int].client.pending_block_requests@, at as int);
            lemma_one_changed(before, mid_peers, i as int);
        }
        self.blockdb.add(Block::Partial(Partial::new(res.blockid, res.len as usize)));
        let ghost blocks1 = self.blockdb.blocks_spec();
        proof {
            if !crate::blockdb::has_id(blocks0, res.blockid@) {
                assert(blocks1.subrange(0, blocks0.len() as int) =~= blocks0);
            }
            assert(expected(blocks0, res.blockid@, res.len as nat, blocks1));
        }
        let outcome: Result<bool, StoreError> = self.blockdb.try_promote(res.blockid);
        if first {
            effects.push(Effect::StartStatus(addr));
        }
        proof {
            assert(effects@ =~= if first {
                seq![Effect::StartStatus(addr)]
            } else {
                Seq::<Effect>::empty()
            });
            assert(self.reference(res.blockid@) == reference);
        }
        let more: Vec<Effect> = self.settle(i, res.blockid, outcome);
        join(&mut effects, more);
        proof {
            if outcome.is_err() {
                let list = self.peers@[i as int].client.pending_block_requests@;
                assert(list[list.len() - 1]@ == res.blockid@);
            }
            let r = Ok::<Seq<Effect>, TransferError>(effects@);
            assert(forall|other: PeerId| self.known(other) == old(self).known(other));
            assert(r matches Ok(e) && taken_effect(
                *old(self),
                addr,
                res,
                *self,
                e,
                blocks1,
                outcome,
            ));
        }
        Ok(effects)
    }
}

/// What is kept for a peer after the bytes of the block `blockid` that came
/// from it had another digest: the block is not among the incoming transfers
/// any more, and it is asked for.
pub open spec fn refused(before: Client, after: Client, blockid: BlockId) -> bool {
    &&& after.transfer_out == before.transfer_out
    &&& after.root_update_open == before.root_update_open
    &&& after.transfer_in.transfers_spec() == without(
        before.transfer_in.transfers_spec(),
        blockid@,
    )
    &&& after.transfer_in.status_active_spec() == before.transfer_in.status_active_spec()
    &&& after.pending_block_requests@ == asked_also(before.pending_block_requests@, blockid)
}

/// What taking up the announcement `res` from the peer `addr` does, the
/// store holding the blocks `mid` before the promotion, which ends with
/// `outcome`: the request is closed and the range is noted, and where the
/// bytes of the block have another digest, the range is dropped and the
/// block is asked for again. What is kept for the other peers stays.
pub open spec fn taken_effect(
    pre: Handler,
    addr: PeerId,
    res: BlockRequestResponse,
    post: Handler,
    effects: Seq<Effect>,
    mid: Seq<Block>,
    outcome: Result<bool, StoreError>,
) -> bool {
    let before = pre.client(addr);
    let after = post.client(addr);
    let noted = before.transfer_in.transfers_spec().insert(
        slot(before.transfer_in.transfers_spec(), res.start_id, 0),
        Transfer { blockid: res.blockid, start: res.start_id, end: res.end_id },
    );
    &&& expected(pre.blockdb_spec().blocks_spec(), res.blockid@, res.len as nat, mid)
    &&& promotion(mid, res.blockid@, post.blockdb_spec().blocks_spec(), outcome)
    &&& effects == (if before.transfer_in.transfers_spec().len() == 0 {
        seq![Effect::StartStatus(addr)]
    } else {
        Seq::<Effect>::empty()
    }) + settled(outcome, addr, res.blockid, pre.reference(res.blockid@))
    &&& only_changed(pre.peers_spec(), post.peers_spec(), addr)
    &&& after.transfer_out == before.transfer_out
    &&& after.root_update_open == before.root_update_open
    &&& after.transfer_in.status_active_spec()
    &&& outcome.is_ok() ==> {
        &&& after.transfer_in.transfers_spec() == noted
        &&& after.pending_block_requests@ == answered(
            before.pending_block_requests@,
            res.blockid@,
        )
    }
    &&& outcome.is_err() ==> {
        &&& after.transfer_in.transfers_spec() == without(noted, res.blockid@)
        &&& after.pending_block_requests@ == answered(
            before.pending_block_requests@,
            res.blockid@,
        ).push(res.blockid)
    }
}

/// What `block_request_response` does: the effects where the announcement
/// is taken up, and else the reason why it is not, with nothing changed.
pub open spec fn announced_post(
    pre: Handler,
    addr: PeerId,
    res: BlockRequestResponse,
    post: Handler,
    r: Result<Seq<Effect>, TransferError>,
) -> bool {
    let unchanged = post.blockdb_spec() == pre.blockdb_spec() && post.peers_spec()
        == pre.peers_spec();
    &&& post.catalog_spec() == pre.catalog_spec()
    &&& post.blockdb_spec().root_spec() == pre.blockdb_spec().root_spec()
    &&& post.blockdb_spec().pending_spec() == pre.blockdb_spec().pending_spec()
    &&& forall|other: PeerId| post.known(other) == pre.known(other)
    &&& if !pre.known(addr) {
        r == Err::<Seq<Effect>, TransferError>(TransferError::UnknownPeer) && unchanged
    } else if !pre.client(addr).asked(res.blockid@) {
        r == Err::<Seq<Effect>, TransferError>(TransferError::NotAsked) && unchanged
    } else {
        match accepts(pre.client(addr).transfer_in.transfers_spec(), res) {
            Err(e) => r == Err::<Seq<Effect>, TransferError>(e) && unchanged,
            Ok(_) => r matches Ok(effects) && exists|
                mid: Seq<Block>,
                outcome: Result<bool, StoreError>,
            | #[trigger] taken_effect(pre, addr, res, post, effects, mid, outcome),
        }
    }
}

/// What a list of effects or a reason says.
pub open spec fn seen(r: Result<Vec<Effect>, TransferError>) -> Result<Seq<Effect>, TransferError> {
    match r {
        Ok(effects) => Ok(effects@),
        Err(e) => Err(e),
    }
}

/// The effects of a message that was acted on, and none of one that was
/// dropped.
pub open spec fn acted(r: Result<Seq<Effect>, TransferError>) -> Seq<Effect> {
    match r {
        Ok(effects) => effects,
        Err(_) => Seq::empty(),
    }
}

/// What storing the chunk of `chunk` in the block of the transfer `t` from
/// the peer `addr` does, the store holding the blocks `mid` before the
/// promotion, which ends with `outcome`.
pub open spec fn stored_effect(
    pre: Handler,
    addr: PeerId,
    chunk: TransferPayload,
    t: Transfer,
    post: Handler,
    effects: Seq<Effect>,
    mid: Seq<Block>,
    outcome: Result<bool, StoreError>,
) -> bool {
    let id = t.blockid@;
    &&& stored(
        pre.blockdb_spec().blocks_spec(),
        pre.blockdb_spec().index_of(id),
        (chunk.chunkid - t.start) as nat,
        chunk.data@,
        mid,
    )
    &&& promotion(mid, id, post.blockdb_spec().blocks_spec(), outcome)
    &&& effects == seq![Effect::NudgeStatus(addr)] + settled(
        outcome,
        addr,
        t.blockid,
        pre.reference(id),
    )
    &&& outcome.is_ok() ==> post.peers_spec() == pre.peers_spec()
    &&& outcome.is_err() ==> {
        &&& only_changed(pre.peers_spec(), post.peers_spec(), addr)
        &&& refused(pre.client(addr), post.client(addr), t.blockid)
    }
}

/// What `transfer_payload` does. A payload is stored where the peer has an
/// open connection, its chunk id lies in the range of an incoming block,
/// the store holds that block as a partial one, and the chunk fits its
/// place. A payload for a block that is not partial in the store only
/// nudges the status. Any other payload is dropped, with nothing changed,
/// and the result is the reason.
pub open spec fn payload_post(
    pre: Handler,
    addr: PeerId,
    chunk: TransferPayload,
    post: Handler,
    r: Result<Seq<Effect>, TransferError>,
) -> bool {
    let unchanged = post.blockdb_spec() == pre.blockdb_spec() && post.peers_spec()
        == pre.peers_spec();
    let nudged = Ok::<Seq<Effect>, TransferError>(seq![Effect::NudgeStatus(addr)]);
    &&& post.catalog_spec() == pre.catalog_spec()
    &&& post.blockdb_spec().root_spec() == pre.blockdb_spec().root_spec()
    &&& post.blockdb_spec().pending_spec() == pre.blockdb_spec().pending_spec()
    &&& forall|other: PeerId| post.known(other) == pre.known(other)
    &&& if !pre.known(addr) {
        r == Err::<Seq<Effect>, TransferError>(TransferError::UnknownPeer) && unchanged
    } else {
        match held(pre.client(addr).transfer_in.transfers_spec(), chunk.chunkid, 0) {
            None => r == Err::<Seq<Effect>, TransferError>(TransferError::UnknownChunkId)
                && unchanged,
            Some(t) => if !pre.blockdb_spec().has(t.blockid@) {
                r == nudged && unchanged
            } else {
                match pre.blockdb_spec().block(t.blockid@) {
                    Block::Full(_) => r == nudged && unchanged,
                    Block::Partial(p) => if !p.fits(
                        (chunk.chunkid - t.start) as u64,
                        chunk.data@.len(),
                    ) {
                        r == Err::<Seq<Effect>, TransferError>(TransferError::BadChunk)
                            && unchanged
                    } else {
                        r matches Ok(effects) && exists|
                            mid: Seq<Block>,
                            outcome: Result<bool, StoreError>,
                        | #[trigger] stored_effect(pre, addr, chunk, t, post, effects, mid, outcome)
                    },
                }
            },
        }
    }
}

impl Handler {
    /// Takes in the payload `chunk` from the peer `addr`: stores its chunk
    /// in the block whose range holds the chunk id, nudges the status, and
    /// promotes the block once all its chunks are there. A payload that is
    /// dropped changes nothing, and the result is the reason.
    pub fn transfer_payload(&mut self, addr: PeerId, chunk: TransferPayload) -> (r: Result<
        Vec<Effect>,
        TransferError,
    >)
        requires
            old(self).wf(),
        ensures
            final(self).wf(),
            payload_post(*old(self), addr, chunk, *final(self), seen(r)),
    {
        let mut effects: Vec<Effect> = Vec::new();
        let i: usize = match self.position(addr) {
            Some(i) => i,
            None => {
                return Err(TransferError::UnknownPeer);
            },
        };
        let t: Transfer = match self.peers[i].client.transfer_in.transfer(chunk.chunkid) {
            Some(t) => t,
            None => {
                return Err(TransferError::UnknownChunkId);
            },
        };
        proof {
            crate::transfer::lemma_held(
                self.peers@[i as int].client.transfer_in.transfers_spec(),
                chunk.chunkid,
                0,
            );
        }
        if !self.blockdb.contains(t.blockid) {
            effects.push(Effect::NudgeStatus(addr));
            proof {
                assert(effects@ =~= seq![Effect::NudgeStatus(addr)]);
            }
            return Ok(effects);
        }
        let index: u64 = chunk.chunkid - t.start;
        let fits: Option<bool> = match self.blockdb.get(t.blockid) {
            Block::Partial(p) => Some(p.accepts_chunk(index, chunk.data.len())),
            Block::Full(_) => None,
        };
        match fits {
            None => {
                effects.push(Effect::NudgeStatus(addr));
                proof {
                    assert(effects@ =~= seq![Effect::NudgeStatus(addr)]);
                }
                return Ok(effects);
            },
            Some(false) => {
                return Err(TransferError::BadChunk);
            },
            Some(true) => {},
        }
        let ghost blocks0 = self.blockdb.blocks_spec();
        let ghost at = self.blockdb.index_of(t.blockid@);
        let ghost reference = self.reference(t.blockid@);
        proof {
            assert(old(self).known(addr));
            assert(held(old(self).client(addr).transfer_in.transfers_spec(), chunk.chunkid, 0)
                == Some(t));
            assert(old(self).blockdb_spec().has(t.blockid@));
            assert(old(self).blockdb_spec().block(t.blockid@) is Partial);
        }
        let block: &mut Block = self.blockdb.get_mut(t.blockid);
        let partial: &mut Partial = block.partial_mut();
        let _ = partial.write_chunk(index, chunk.data.as_slice());
        let ghost blocks1 = self.blockdb.blocks_spec();
        proof {
            assert(stored(blocks0, at, index as nat, chunk.data@, blocks1));
        }
        let outcome: Result<bool, StoreError> = self.blockdb.try_promote(t.blockid);
        effects.push(Effect::NudgeStatus(addr));
        proof {
            assert(effects@ =~= seq![Effect::NudgeStatus(addr)]);
            assert(self.reference(t.blockid@) == reference);
        }
        let more: Vec<Effect> = self.settle(i, t.blockid, outcome);
        join(&mut effects, more);
        proof {
            let r = Ok::<Seq<Effect>, TransferError>(effects@);
            assert(forall|other: PeerId| self.known(other) == old(self).known(other));
            assert(r matches Ok(e) && stored_effect(
                *old(self),
                addr,
                chunk,
                t,
                *self,
                e,
                blocks1,
                outcome,
            ));
        }
        Ok(effects)
    }
}

/// The request for the block `blockid` to the peer `addr`, to be sent until
/// it is answered.
pub open spec fn request(blockid: BlockId, addr: PeerId) -> Effect {
    Effect::ScheduleRetry(Msg::BlockRequest(BlockRequest { blockid }), addr)
}

/// What `unconnected_root_update` does. Where the announced root is the root
/// in force, the peer is told so. Where it is another and no root is
/// pending, it becomes the pending root, a connection is opened, and its
/// block is asked of the peer: beside that request nothing is kept for the
/// peer yet, and what is kept for the others stays. Where a root is pending,
/// or the peer has an open connection, nothing is done.
pub open spec fn root_update_post(
    pre: Handler,
    addr: PeerId,
    update: RootUpdate,
    post: Handler,
    effects: Seq<Effect>,
) -> bool {
    let root = pre.blockdb_spec().root_spec();
    let unchanged = post.peers_spec() == pre.peers_spec() && post.blockdb_spec()
        == pre.blockdb_spec();
    &&& post.catalog_spec() == pre.catalog_spec()
    &&& post.blockdb_spec().root_spec() == root
    &&& post.blockdb_spec().blocks_spec() == pre.blockdb_spec().blocks_spec()
    &&& if pre.known(addr) {
        effects.len() == 0 && unchanged
    } else if update.to_blockref.blockid@ == root.blockid@ {
        let told = RootUpdateResponse {
            from_blockid: root.blockid,
            to_blockid: root.blockid,
            to_key: root.key,
        };
        effects == seq![Effect::SendNow(Msg::RootUpdateResponse(told), addr)] && unchanged
    } else if pre.blockdb_spec().pending_spec().is_some() {
        effects.len() == 0 && unchanged
    } else {
        &&& effects == seq![request(update.to_blockref.blockid, addr)]
        &&& post.blockdb_spec().pending_spec() == Some(update.to_blockref)
        &&& one_more(pre.peers_spec(), post.peers_spec(), addr)
        &&& post.known(addr)
        &&& post.client(addr).pending_block_requests@ == seq![update.to_blockref.blockid]
        &&& !post.client(addr).root_update_open
        &&& at_rest(post.client(addr))
        &&& forall|other: PeerId| other != addr ==> post.known(other) == pre.known(other)
    }
}

/// What `root_update_response` does. The announcement to the peer is
/// answered. Where the peer has another root than the root in force and no
/// root is pending, its root becomes the pending root and its block is asked
/// of the peer. The blocks that come in from the peer and go out to it stay
/// as they are, and so does what is kept for the other peers. A peer without
/// an open connection changes nothing.
pub open spec fn response_post(
    pre: Handler,
    addr: PeerId,
    res: RootUpdateResponse,
    post: Handler,
    effects: Seq<Effect>,
) -> bool {
    let root = pre.blockdb_spec().root_spec();
    let fetch = pre.known(addr) && res.to_blockid@ != root.blockid@
        && pre.blockdb_spec().pending_spec().is_none();
    &&& post.catalog_spec() == pre.catalog_spec()
    &&& post.blockdb_spec().root_spec() == root
    &&& post.blockdb_spec().blocks_spec() == pre.blockdb_spec().blocks_spec()
    &&& forall|other: PeerId| post.known(other) == pre.known(other)
    &&& only_changed(pre.peers_spec(), post.peers_spec(), addr)
    &&& pre.known(addr) ==> {
        &&& !post.client(addr).root_update_open
        &&& post.client(addr).transfer_in == pre.client(addr).transfer_in
        &&& post.client(addr).transfer_out == pre.client(addr).transfer_out
    }
    &&& if fetch {
        let pending = post.blockdb_spec().pending_spec();
        &&& effects == seq![request(res.to_blockid, addr)]
        &&& pending.is_some()
        &&& pending.unwrap().blockid == res.to_blockid
        &&& pending.unwrap().key == res.to_key
        &&& pending.unwrap().hints@.len() == 0
        &&& post.client(addr).pending_block_requests@ == asked_also(
            pre.client(addr).pending_block_requests@,
            res.to_blockid,
        )
    } else {
        &&& effects.len() == 0
        &&& post.blockdb_spec() == pre.blockdb_spec()
        &&& pre.known(addr) ==> post.client(addr).pending_block_requests == pre.client(
            addr,
        ).pending_block_requests
    }
}

/// What `block_request` does. Where the request is served, the peer is told
/// the range of chunk ids of the block and its length, and the range is the
/// one that the block had or got among the outgoing transfers of the peer.
/// Where it is not, nothing is answered and no range is given out. Nothing
/// else that is kept for the peer changes, and nothing of the other peers.
pub open spec fn request_post(
    pre: Handler,
    addr: PeerId,
    req: BlockRequest,
    post: Handler,
    effects: Seq<Effect>,
) -> bool {
    &&& post.blockdb_spec() == pre.blockdb_spec()
    &&& post.catalog_spec() == pre.catalog_spec()
    &&& forall|other: PeerId| post.known(other) == pre.known(other)
    &&& only_changed(pre.peers_spec(), post.peers_spec(), addr)
    &&& pre.known(addr) ==> {
        &&& incoming_kept(pre.client(addr), post.client(addr))
        &&& post.client(addr).transfer_out.todo_spec() == pre.client(addr).transfer_out.todo_spec()
        &&& post.client(addr).transfer_out.cursor_spec() == pre.client(
            addr,
        ).transfer_out.cursor_spec()
    }
    &&& match pre.served(addr, req.blockid) {
        Some((from, to, len)) => {
            let told = BlockRequestResponse {
                blockid: req.blockid,
                start_id: from,
                end_id: to,
                len,
            };
            let before = pre.client(addr).transfer_out;
            let after = post.client(addr).transfer_out;
            &&& effects == seq![Effect::SendNow(Msg::BlockRequestResponse(told), addr)]
            &&& (after.transfers_spec(), after.next_alloc(), Some((from, to))) == allocated(
                before.transfers_spec(),
                before.next_alloc(),
                req.blockid,
                len,
            )
        },
        None => {
            &&& effects.len() == 0
            &&& pre.known(addr) ==> {
                let before = pre.client(addr).transfer_out;
                let after = post.client(addr).transfer_out;
                &&& after.transfers_spec() == before.transfers_spec()
                &&& after.next_alloc() == before.next_alloc()
            }
        },
    }
}

/// What `transfer_status` does. The ranges that the peer misses are taken
/// in where they are in ascending order. Where the sender for the peer was
/// at rest and something is missing, it is to be started at the first
/// missing id. Nothing else that is kept for the peer changes, and nothing
/// of the other peers. A peer without an open connection changes nothing.
pub open spec fn status_post(
    pre: Handler,
    addr: PeerId,
    status: TransferStatus,
    post: Handler,
    effects: Seq<Effect>,
) -> bool {
    &&& post.blockdb_spec() == pre.blockdb_spec()
    &&& post.catalog_spec() == pre.catalog_spec()
    &&& forall|other: PeerId| post.known(other) == pre.known(other)
    &&& only_changed(pre.peers_spec(), post.peers_spec(), addr)
    &&& if !pre.known(addr) {
        effects.len() == 0
    } else {
        let before = pre.client(addr).transfer_out;
        let after = post.client(addr).transfer_out;
        let ranges = pairs(status.missing_ranges@);
        let taken = crate::rle::ascending(ranges);
        let launch = taken && before.cursor_spec().is_none() && after.cursor_spec().is_some();
        &&& effects == if launch {
            seq![Effect::StartSender(addr)]
        } else {
            Seq::<Effect>::empty()
        }
        &&& incoming_kept(pre.client(addr), post.client(addr))
        &&& after.transfers_spec() == before.transfers_spec()
        &&& after.next_alloc() == before.next_alloc()
        &&& after.todo_spec() == if taken {
            ranges
        } else {
            before.todo_spec()
        }
        &&& if taken && before.cursor_spec().is_none() {
            crate::codec::least_missing(ranges, 0, after.cursor_spec())
        } else {
            after.cursor_spec() == before.cursor_spec()
        }
    }
}

/// The ids of the blocks that the content `decoded` names, in its order: the
/// entries of a directory, the leaves of a file list.
pub open spec fn named(decoded: Decoded) -> Seq<BlockId> {
    match decoded {
        Decoded::Dir(dir) => dir.children@.map_values(|c: Child| c.blockref.blockid),
        Decoded::Meta(meta) => meta.blocks@.map_values(|b: BlockRef| b.blockid),
        Decoded::Leaf(_) => Seq::empty(),
    }
}

/// Those of `ids`, from place `from` on, that are to be asked for: the store
/// does not have the block, and it is not asked for yet, `asked` being the
/// open requests.
pub open spec fn wanted(ids: Seq<BlockId>, blockdb: BlockDb, asked: Seq<BlockId>, from: int) -> Seq<
    BlockId,
>
    decreases ids.len() - from,
{
    if from < 0 || from >= ids.len() {
        Seq::empty()
    } else if blockdb.has(ids[from]@) || listed(asked, ids[from]@) {
        wanted(ids, blockdb, asked, from + 1)
    } else {
        seq![ids[from]] + wanted(ids, blockdb, asked.push(ids[from]), from + 1)
    }
}

/// The requests for the blocks `ids` to the peer `addr`, each to be sent
/// until it is answered.
pub open spec fn requests(ids: Seq<BlockId>, addr: PeerId) -> Seq<Effect> {
    ids.map_values(
        |id: BlockId| Effect::ScheduleRetry(Msg::BlockRequest(BlockRequest { blockid: id }), addr),
    )
}

/// The ids of the blocks that `decoded` names.
pub fn names_of(decoded: &Decoded) -> (r: Vec<BlockId>)
    ensures
        r@ == named(*decoded),
{
    let mut ids: Vec<BlockId> = Vec::new();
    match decoded {
        Decoded::Dir(dir) => {
            let mut i: usize = 0;
            while i < dir.children.len()
                invariant
                    i <= dir.children@.len(),
                    named(*decoded) == dir.children@.map_values(|c: Child| c.blockref.blockid),
                    ids@ == named(*decoded).subrange(0, i as int),
                decreases dir.children@.len() - i,
            {
                ids.push(dir.children[i].blockref.blockid);
                proof {
                    assert(ids@ =~= named(*decoded).subrange(0, i + 1));
                }
                i += 1;
            }
            proof {
                assert(ids@ =~= named(*decoded));
            }
        },
        Decoded::Meta(meta) => {
            let mut i: usize = 0;
            while i < meta.blocks.len()
                invariant
                    i <= meta.blocks@.len(),
                    named(*decoded) == meta.blocks@.map_values(|b: BlockRef| b.blockid),
                    ids@ == named(*decoded).subrange(0, i as int),
                decreases meta.blocks@.len() - i,
            {
                ids.push(meta.blocks[i].blockid);
                proof {
                    assert(ids@ =~= named(*decoded).subrange(0, i + 1));
                }
                i += 1;
            }
            proof {
                assert(ids@ =~= named(*decoded));
            }
        },
        Decoded::Leaf(_) => {
            proof {
                assert(ids@ =~= named(*decoded));
            }
        },
    }
    ids
}

/// What `block_decoded` does. The content is noted unless content of the
/// block is known already. Where the peer has an open connection, each
/// block that the content names and the store does not have is asked of it,
/// unless it is asked for already.
pub open spec fn decoded_post(
    pre: Handler,
    addr: PeerId,
    blockid: BlockId,
    decoded: Decoded,
    post: Handler,
    effects: Seq<Effect>,
) -> bool {
    &&& post.blockdb_spec() == pre.blockdb_spec()
    &&& forall|other: Seq<u8>|
        post.catalog_spec().lookup(other) == if other == blockid@ && pre.catalog_spec().lookup(
            other,
        ).is_none() {
            Some(decoded)
        } else {
            pre.catalog_spec().lookup(other)
        }
    &&& forall|other: PeerId| post.known(other) == pre.known(other)
    &&& only_changed(pre.peers_spec(), post.peers_spec(), addr)
    &&& if !pre.known(addr) {
        effects.len() == 0
    } else {
        let ids = wanted(
            named(decoded),
            pre.blockdb_spec(),
            pre.client(addr).pending_block_requests@,
            0,
        );
        let before = pre.client(addr);
        let after = post.client(addr);
        &&& effects == requests(ids, addr)
        &&& after.pending_block_requests@ == before.pending_block_requests@ + ids
        &&& kept(before, after)
    }
}

/// `after` is `before` but for the blocks that are asked for.
pub open spec fn kept(before: Client, after: Client) -> bool {
    &&& after.root_update_open == before.root_update_open
    &&& after.transfer_in == before.transfer_in
    &&& after.transfer_out == before.transfer_out
}

/// Whether the pending root can be put in force: there is one, and the tree
/// below it is all there. Such a tree can be written out.
pub open spec fn ready(pre: Handler) -> bool {
    &&& pre.blockdb_spec().pending_spec().is_some()
    &&& intact(
        pre.blockdb_spec(),
        pre.catalog_spec(),
        chosen_root(pre.blockdb_spec(), true),
        BlockType::Directory,
        pre.blockdb_spec().blocks_spec().len(),
    )
}

/// What `try_commit` does. Where the pending root can be put in force, it
/// is: the tree is to be written out, every peer with an open connection is
/// told the new root, and the connection of the peer `addr` is closed.
/// Where it cannot, nothing is done.
pub open spec fn commit_post(
    pre: Handler,
    addr: PeerId,
    post: Handler,
    effects: Seq<Effect>,
) -> bool {
    &&& post.catalog_spec() == pre.catalog_spec()
    &&& post.blockdb_spec().blocks_spec() == pre.blockdb_spec().blocks_spec()
    &&& if ready(pre) {
        let told = RootUpdateResponse {
            from_blockid: pre.blockdb_spec().root_spec().blockid,
            to_blockid: pre.blockdb_spec().pending_spec().unwrap().blockid,
            to_key: pre.blockdb_spec().pending_spec().unwrap().key,
        };
        &&& post.blockdb_spec().root_spec() == pre.blockdb_spec().pending_spec().unwrap()
        &&& post.blockdb_spec().pending_spec().is_none()
        &&& effects.len() == 1 + pre.peers_spec().len()
        &&& effects[0] matches Effect::Materialize(ops) && steps(ops@) == written_out(
            pre.blockdb_spec(),
            pre.catalog_spec(),
            true,
        ).0
        &&& forall|k: int|
            0 <= k < pre.peers_spec().len() ==> #[trigger] effects[k + 1] == Effect::SendNow(
                Msg::RootUpdateResponse(told),
                pre.peers_spec()[k].addr,
            )
        &&& post.peers_spec() == match peer_at(pre.peers_spec(), addr, 0) {
            Some(i) => pre.peers_spec().remove(i),
            None => pre.peers_spec(),
        }
    } else {
        &&& effects.len() == 0
        &&& post.blockdb_spec() == pre.blockdb_spec()
        &&& post.peers_spec() == pre.peers_spec()
    }
}

impl Handler {
    /// Takes in the content `decoded` of the block `blockid`, which was
    /// opened for the peer `addr`, and asks the peer for the blocks that the
    /// content names and the store does not have.
    pub fn block_decoded(&mut self, addr: PeerId, blockid: BlockId, decoded: Decoded) -> (effects:
        Vec<Effect>)
        requires
            old(self).wf(),
        ensures
            final(self).wf(),
            decoded_post(*old(self), addr, blockid, decoded, *final(self), effects@),
    {
        let mut effects: Vec<Effect> = Vec::new();
        let ids: Vec<BlockId> = names_of(&decoded);
        self.catalog.insert(blockid, decoded);
        let ghost noted = self.catalog;
        proof {
            assert(self.peers_spec() == old(self).peers_spec());
        }
        let i: usize = match self.position(addr) {
            Some(i) => i,
            None => {
                return effects;
            },
        };
        let ghost before = self.peers@;
        let ghost list0 = before[i as int].client.pending_block_requests@;
        let ghost target = wanted(ids@, self.blockdb, list0, 0);
        let ghost mut done: Seq<BlockId> = Seq::empty();
        let mut k: usize = 0;
        proof {
            assert(effects@ =~= requests(done, addr));
            assert(list0 + done =~= list0);
            assert(done + target =~= target);
            assert(same_names(before, before));
        }
        while k < ids.len()
            invariant
                k <= ids@.len(),
                i < self.peers@.len(),
                self.wf(),
                self.blockdb == old(self).blockdb,
                self.catalog == noted,
                same_names(before, self.peers@),
                same_but(before, self.peers@, i as int),
                i < before.len(),
                peer_at(before, addr, 0) == Some(i as int),
                self.peers@[i as int].addr == addr,
                self.peers@[i as int].client.pending_block_requests@ == list0 + done,
                kept(before[i as int].client, self.peers@[i as int].client),
                effects@ == requests(done, addr),
                target == done + wanted(ids@, self.blockdb, list0 + done, k as int),
            decreases ids@.len() - k,
        {
            let id: BlockId = ids[k];
            if !self.blockdb.contains(id) && self.peers[i].client.request_at(&id).is_none() {
                let e: Effect = self.send_block_request(i, id);
                effects.push(e);
                proof {
                    assert((list0 + done).push(id) =~= list0 + done.push(id));
                    assert(requests(done.push(id), addr) =~= requests(done, addr).push(e));
                    let rest = wanted(ids@, self.blockdb, (list0 + done).push(id), k + 1);
                    assert(done + (seq![id] + rest) =~= done.push(id) + rest);
                    done = done.push(id);
                }
            }
            k += 1;
        }
        proof {
            assert(done + Seq::<BlockId>::empty() =~= done);
        }
        effects
    }

    /// Puts the pending root in force where the tree below it is all there.
    pub fn try_commit(&mut self, addr: PeerId) -> (effects: Vec<Effect>)
        requires
            old(self).wf(),
        ensures
            final(self).wf(),
            commit_post(*old(self), addr, *final(self), effects@),
    {
        let mut effects: Vec<Effect> = Vec::new();
        if self.blockdb.pending_root().is_none() {
            return effects;
        }
        if !verify(&self.blockdb, &self.catalog, true) {
            return effects;
        }
        proof {
            lemma_intact_written(
                Seq::<FsStep>::empty(),
                self.blockdb_spec(),
                self.catalog_spec(),
                chosen_root(self.blockdb_spec(), true),
                BlockType::Directory,
                Seq::<String>::empty(),
                self.blockdb_spec().blocks_spec().len(),
            );
        }
        let ops: Vec<FsOp> = match Frontend::from_blockdb(&self.blockdb, &self.catalog).plan(true) {
            Ok(ops) => ops,
            Err(_) => {
                return effects;
            },
        };
        let old_root: BlockRef = self.blockdb.apply_pending();
        proof {
            assert(self.peers_spec() == old(self).peers_spec());
        }
        let told_from: BlockId = old_root.blockid;
        let told_to: BlockId = self.blockdb.root().blockid;
        let told_key: Key = self.blockdb.root().key;
        effects.push(Effect::Materialize(ops));
        let mut k: usize = 0;
        while k < self.peers.len()
            invariant
                k <= self.peers@.len(),
                self.wf(),
                self.peers@ == old(self).peers@,
                effects@.len() == 1 + k,
                effects@[0] == Effect::Materialize(ops),
                forall|j: int|
                    0 <= j < k ==> #[trigger] effects@[j + 1] == Effect::SendNow(
                        Msg::RootUpdateResponse(
                            RootUpdateResponse {
                                from_blockid: told_from,
                                to_blockid: told_to,
                                to_key: told_key,
                            },
                        ),
                        self.peers@[j].addr,
                    ),
            decreases self.peers@.len() - k,
        {
            let msg = Msg::RootUpdateResponse(
                RootUpdateResponse {
                    from_blockid: told_from,
                    to_blockid: told_to,
                    to_key: told_key,
                },
            );
            let ghost before = effects@;
            effects.push(Effect::SendNow(msg, self.peers[k].addr));
            proof {
                assert forall|j: int| 0 <= j < k + 1 implies #[trigger] effects@[j + 1]
                    == Effect::SendNow(msg, self.peers@[j].addr) by {
                    if j < k {
                        assert(effects@[j + 1] == before[j + 1]);
                    }
                }
            }
            k += 1;
        }
        match self.position(addr) {
            Some(i) => {
                let ghost before = self.peers@;
                self.peers.remove(i);
                proof {
                    let after = self.peers@;
                    assert forall|j: int| 0 <= j < after.len() implies (
                    #[trigger] after[j]).client.wf() by {
                        if j < i {
                            assert(after[j] == before[j]);
                            assert(before[j].client.wf());
                        } else {
                            assert(after[j] == before[j + 1]);
                            assert(before[j + 1].client.wf());
                        }
                    }
                }
            },
            None => {},
        }
        effects
    }
}

/// Nothing is done.
pub open spec fn dropped(pre: Handler, post: Handler, effects: Seq<Effect>) -> bool {
    &&& effects.len() == 0
    &&& post.blockdb_spec() == pre.blockdb_spec()
    &&& post.catalog_spec() == pre.catalog_spec()
    &&& post.peers_spec() == pre.peers_spec()
}

/// What `handle` does. The announcement of a root is taken in from a peer
/// without an open connection. Every other message is dropped unless the
/// peer has an open connection.
pub open spec fn handled_post(
    pre: Handler,
    addr: PeerId,
    msg: Msg,
    post: Handler,
    effects: Seq<Effect>,
) -> bool {
    match msg {
        Msg::RootUpdate(update) => root_update_post(pre, addr, update, post, effects),
        Msg::RootUpdateResponse(res) => if pre.known(addr) {
            response_post(pre, addr, res, post, effects)
        } else {
            dropped(pre, post, effects)
        },
        Msg::BlockRequest(req) => if pre.known(addr) {
            request_post(pre, addr, req, post, effects)
        } else {
            dropped(pre, post, effects)
        },
        Msg::BlockRequestResponse(res) => exists|r: Result<Seq<Effect>, TransferError>| #[trigger]
            announced_post(pre, addr, res, post, r) && effects == acted(r),
        Msg::TransferPayload(chunk) => exists|r: Result<Seq<Effect>, TransferError>| #[trigger]
            payload_post(pre, addr, chunk, post, r) && effects == acted(r),
        Msg::TransferStatus(status) => if pre.known(addr) {
            status_post(pre, addr, status, post, effects)
        } else {
            dropped(pre, post, effects)
        },
    }
}

impl Handler {
    /// Takes in the message `msg` from the peer `addr` and says what is to be
    /// done. A message that is dropped has no effects.
    pub fn handle(&mut self, addr: PeerId, msg: Msg) -> (effects: Vec<Effect>)
        requires
            old(self).wf(),
        ensures
            final(self).wf(),
            handled_post(*old(self), addr, msg, *final(self), effects@),
    {
        match msg {
            Msg::RootUpdate(update) => self.unconnected_root_update(addr, update),
            Msg::BlockRequestResponse(res) => {
                let r: Result<Vec<Effect>, TransferError> = self.block_request_response(addr, res);
                proof {
                    assert(announced_post(*old(self), addr, res, *self, seen(r)));
                }
                match r {
                    Ok(effects) => effects,
                    Err(_) => Vec::new(),
                }
            },
            Msg::TransferPayload(chunk) => {
                let r: Result<Vec<Effect>, TransferError> = self.transfer_payload(addr, chunk);
                proof {
                    assert(payload_post(*old(self), addr, chunk, *self, seen(r)));
                }
                match r {
                    Ok(effects) => effects,
                    Err(_) => Vec::new(),
                }
            },
            other => match self.client_state(addr) {
                ClientState::New => Vec::new(),
                ClientState::Known => match other {
                    Msg::RootUpdateResponse(res) => self.root_update_response(addr, res),
                    Msg::BlockRequest(req) => self.block_request(addr, req),
                    Msg::TransferStatus(status) => self.transfer_status(addr, status),
                    _ => Vec::new(),
                },
            },
        }
    }
}

} // verus!
