use std::collections::VecDeque;

use scsync::blockdb::{BlockDb, BlockId, BlockRef, Full, Key, CHUNK_SIZE};
use scsync::frontend::{BlockType, Builder, Catalog, Child, Decoded, Dir, FsOp, Leaf};
use scsync::handler::{ClientState, Effect, Handler, PeerId, RETRY_MILLIS};
use scsync::transfer::{SendStep, TransferError};
use scsync::wire::{
    BlockRequest, BlockRequestResponse, Msg, RootUpdate, RootUpdateResponse, TransferPayload,
    TransferStatus,
};

#[derive(Clone)]
enum Content {
    Leaf(Vec<u8>),
    Dir(Vec<(String, BlockType, BlockId, Key)>),
}

fn decoded(content: &Content) -> Decoded {
    match content {
        Content::Leaf(data) => Decoded::Leaf(Leaf { data: data.clone() }),
        Content::Dir(entries) => Decoded::Dir(Dir {
            children: entries
                .iter()
                .map(|(name, kind, id, key)| Child {
                    name: name.clone(),
                    metadata: (),
                    _type: *kind,
                    blockref: BlockRef::new(*id, *key, Vec::new()),
                })
                .collect(),
        }),
    }
}

fn seal_file(salt: u8, data: &[u8]) -> Vec<u8> {
    if data.is_empty() {
        return Vec::new();
    }
    let mut out: Vec<u8> = vec![3u8, salt];
    out.extend(data.iter().map(|b| b ^ 0x5a));
    out
}

fn seal_dir(salt: u8, dir: &Dir) -> Vec<u8> {
    let mut out: Vec<u8> = vec![1u8, salt];
    for child in &dir.children {
        out.extend_from_slice(child.name.as_bytes());
        out.push(0);
        out.extend_from_slice(&child.blockref.blockid);
    }
    out
}

struct Tree {
    db: BlockDb,
    catalog: Catalog,
    contents: Vec<(BlockId, Content)>,
    root: BlockId,
}

/// A top directory with the files `files`.
fn tree(salt: u8, files: &[(&str, Vec<u8>)]) -> Tree {
    let top: Vec<String> = vec!["top".to_string()];
    let mut builder = Builder::new();
    let mut contents: Vec<(BlockId, Content)> = Vec::new();
    let mut entries: Vec<(String, BlockType, BlockId, Key)> = Vec::new();
    for (i, (name, data)) in files.iter().enumerate() {
        let sealed = seal_file(salt, data);
        let id = Full::new(sealed.clone()).id();
        let key: Key = [i as u8 + 1; 16];
        builder.add_file(&top, name.to_string(), key, sealed, data.clone());
        contents.push((id, Content::Leaf(data.clone())));
        entries.push((name.to_string(), BlockType::Leaf, id, key));
    }
    let dir = builder.take_dir(&top);
    let sealed = seal_dir(salt, &dir);
    let root = Full::new(sealed.clone()).id();
    builder.add_dir(None, "top".to_string(), [0xee; 16], sealed, dir);
    contents.push((root, Content::Dir(entries)));
    let (db, catalog) = builder.finish().unwrap();
    Tree { db, catalog, contents, root }
}

fn peer_of(index: usize) -> PeerId {
    10 + index as u64
}

struct Sim {
    handlers: Vec<Handler>,
    contents: Vec<(BlockId, Content)>,
    queue: VecDeque<(usize, usize, Msg)>,
    log: Vec<(usize, u8)>,
    plans: Vec<(usize, Vec<FsOp>)>,
    status_on: Vec<Vec<usize>>,
    payloads: usize,
    drop: Vec<usize>,
    corrupt: Vec<usize>,
}

impl Sim {
    fn new(trees: Vec<Tree>) -> Sim {
        let mut handlers: Vec<Handler> = Vec::new();
        let mut contents: Vec<(BlockId, Content)> = Vec::new();
        let n = trees.len();
        for t in trees {
            handlers.push(Handler::new(t.db, t.catalog));
            contents.extend(t.contents);
        }
        Sim {
            handlers,
            contents,
            queue: VecDeque::new(),
            log: Vec::new(),
            plans: Vec::new(),
            status_on: vec![Vec::new(); n],
            payloads: 0,
            drop: Vec::new(),
            corrupt: Vec::new(),
        }
    }

    fn content_of(&self, id: &BlockId) -> Content {
        self.contents.iter().find(|(other, _)| other == id).unwrap().1.clone()
    }

    fn carry_out(&mut self, at: usize, effects: Vec<Effect>) {
        for effect in effects {
            match effect {
                Effect::SendNow(msg, peer) | Effect::ScheduleRetry(msg, peer) => {
                    self.queue.push_back((at, (peer - 10) as usize, msg));
                }
                Effect::StartStatus(peer) => {
                    let to = (peer - 10) as usize;
                    if !self.status_on[at].contains(&to) {
                        self.status_on[at].push(to);
                    }
                }
                Effect::NudgeStatus(_) => {}
                Effect::StartSender(peer) => loop {
                    match self.handlers[at].next_payload(peer) {
                        SendStep::Idle => break,
                        SendStep::Skip => {}
                        SendStep::Payload(mut payload) => {
                            self.payloads += 1;
                            if self.drop.contains(&self.payloads) {
                                continue;
                            }
                            if self.corrupt.contains(&self.payloads) {
                                payload.data[0] ^= 0xff;
                            }
                            self.queue.push_back((at, (peer - 10) as usize, Msg::TransferPayload(payload)));
                        }
                    }
                },
                Effect::Decode { peer, blockid, .. } => {
                    let content = self.content_of(&blockid);
                    let more = self.handlers[at].block_decoded(peer, blockid, decoded(&content));
                    self.carry_out(at, more);
                    let done = self.handlers[at].try_commit(peer);
                    self.carry_out(at, done);
                }
                Effect::Materialize(ops) => self.plans.push((at, ops)),
            }
        }
    }

    fn run(&mut self) {
        for _ in 0..10_000 {
            match self.queue.pop_front() {
                Some((from, to, msg)) => {
                    self.log.push((to, msg.tag()));
                    let effects = self.handlers[to].handle(peer_of(from), msg);
                    self.carry_out(to, effects);
                }
                None => {
                    let mut sent = false;
                    for at in 0..self.handlers.len() {
                        for to in self.status_on[at].clone() {
                            if let Some(status) = self.handlers[at].status_update(peer_of(to)) {
                                if !status.missing_ranges.is_empty() {
                                    self.queue.push_back((at, to, Msg::TransferStatus(status)));
                                    sent = true;
                                }
                            }
                        }
                    }
                    if !sent {
                        return;
                    }
                }
            }
        }
        panic!("the exchange does not end");
    }

    fn count(&self, tag: u8) -> usize {
        self.log.iter().filter(|(_, t)| *t == tag).count()
    }
}

const PAYLOAD: u8 = 0;
const STATUS: u8 = 1;
const ROOT_UPDATE: u8 = 2;
const ROOT_UPDATE_RESPONSE: u8 = 3;
const BLOCK_REQUEST: u8 = 4;
const BLOCK_REQUEST_RESPONSE: u8 = 5;

fn sync(client: Tree, server: Tree, drop: Vec<usize>, corrupt: Vec<usize>) -> Sim {
    let mut sim = Sim::new(vec![client, server]);
    sim.drop = drop;
    sim.corrupt = corrupt;
    let effects = sim.handlers[0].connect(peer_of(1));
    sim.carry_out(0, effects);
    sim.run();
    sim
}

fn name(parts: &[&str]) -> Vec<String> {
    parts.iter().map(|p| p.to_string()).collect()
}

#[test]
fn empty_directory_sync() {
    let sim = sync(tree(1, &[]), tree(1, &[]), Vec::new(), Vec::new());
    assert_eq!(sim.log, vec![(1, ROOT_UPDATE), (0, ROOT_UPDATE_RESPONSE)]);
    assert!(sim.plans.is_empty());
    assert_eq!(sim.payloads, 0);
    assert_eq!(sim.handlers[1].client_state(peer_of(0)), ClientState::New);
    assert!(sim.handlers[1].blockdb().pending_root().is_none());
}

#[test]
fn single_small_file_sync() {
    let client = tree(1, &[("hello.txt", b"0123456789".to_vec())]);
    let root = client.root;
    let sim = sync(client, tree(2, &[]), Vec::new(), Vec::new());
    assert_eq!(sim.count(ROOT_UPDATE), 1);
    assert_eq!(sim.count(BLOCK_REQUEST), 2);
    assert_eq!(sim.count(BLOCK_REQUEST_RESPONSE), 2);
    assert_eq!(sim.count(PAYLOAD), 2);
    assert!(sim.count(STATUS) >= 1);
    assert_eq!(sim.count(ROOT_UPDATE_RESPONSE), 1);
    assert_eq!(sim.payloads, 2);
    assert_eq!(
        sim.plans,
        vec![(1, vec![FsOp::WriteFile(name(&["hello.txt"]), b"0123456789".to_vec())])]
    );
    let server = &sim.handlers[1];
    assert_eq!(server.blockdb().root().blockid, root);
    assert_eq!(server.blockdb().root().key, [0xee; 16]);
    assert!(server.blockdb().pending_root().is_none());
    assert_eq!(server.client_state(peer_of(0)), ClientState::New);
    assert_eq!(sim.log.last(), Some(&(0, ROOT_UPDATE_RESPONSE)));
}

#[test]
fn large_file_sync() {
    let data: Vec<u8> = (0..10 * CHUNK_SIZE + 5 - 2).map(|i| (i % 251) as u8).collect();
    let client = tree(1, &[("large.bin", data.clone())]);
    let sim = sync(client, tree(2, &[]), Vec::new(), Vec::new());
    assert_eq!(sim.payloads, 1 + 11);
    assert_eq!(sim.count(PAYLOAD), 12);
    assert_eq!(sim.plans, vec![(1, vec![FsOp::WriteFile(name(&["large.bin"]), data)])]);
}

#[test]
fn dropped_chunk_is_sent_again_after_the_next_status() {
    let data: Vec<u8> = (0..10 * CHUNK_SIZE + 5 - 2).map(|i| (i % 251) as u8).collect();
    let client = tree(1, &[("large.bin", data.clone())]);
    // The first payload is the directory; the fifth chunk of the file is the sixth payload.
    let sim = sync(client, tree(2, &[]), vec![6], Vec::new());
    assert_eq!(sim.payloads, 1 + 11 + 1);
    assert_eq!(sim.count(PAYLOAD), 1 + 10 + 1);
    assert_eq!(sim.plans, vec![(1, vec![FsOp::WriteFile(name(&["large.bin"]), data)])]);
}

#[test]
fn corrupted_block_is_asked_for_again() {
    let client = tree(1, &[("hello.txt", b"0123456789".to_vec())]);
    let root = client.root;
    let sim = sync(client, tree(2, &[]), Vec::new(), vec![2]);
    assert_eq!(sim.count(BLOCK_REQUEST), 3);
    assert_eq!(sim.count(BLOCK_REQUEST_RESPONSE), 3);
    assert_eq!(sim.count(PAYLOAD), 3);
    let responses: Vec<&(usize, u8)> =
        sim.log.iter().filter(|(_, tag)| *tag == BLOCK_REQUEST_RESPONSE).collect();
    assert_eq!(responses.len(), 3);
    assert_eq!(
        sim.plans,
        vec![(1, vec![FsOp::WriteFile(name(&["hello.txt"]), b"0123456789".to_vec())])]
    );
    assert_eq!(sim.handlers[1].blockdb().root().blockid, root);
}

#[test]
fn file_without_bytes_needs_no_payload() {
    let client = tree(1, &[("empty", Vec::new()), ("full", vec![1u8, 2, 3])]);
    let sim = sync(client, tree(2, &[]), Vec::new(), Vec::new());
    assert_eq!(sim.count(BLOCK_REQUEST), 3);
    assert_eq!(sim.count(BLOCK_REQUEST_RESPONSE), 3);
    assert_eq!(sim.count(PAYLOAD), 2);
    assert_eq!(
        sim.plans,
        vec![(
            1,
            vec![
                FsOp::WriteFile(name(&["empty"]), Vec::new()),
                FsOp::WriteFile(name(&["full"]), vec![1u8, 2, 3]),
            ]
        )]
    );
}

#[test]
fn second_update_is_dropped_while_one_is_pending() {
    let tree_a = tree(1, &[("a", vec![1u8])]);
    let tree_b = tree(2, &[("b", vec![2u8])]);
    let (root_a, root_b) = (tree_a.root, tree_b.root);
    let mut sim = Sim::new(vec![tree_a, tree_b, tree(3, &[])]);
    let server_root = sim.handlers[2].blockdb().root().blockid;
    let update = |root: BlockId| {
        Msg::RootUpdate(RootUpdate {
            nonce: [0; 12],
            from_blockid: server_root,
            to_blockref: BlockRef::new(root, [0xee; 16], Vec::new()),
        })
    };

    let first = sim.handlers[2].handle(peer_of(0), update(root_a));
    assert_eq!(first.len(), 1);
    let second = sim.handlers[2].handle(peer_of(1), update(root_b));
    assert!(second.is_empty());
    assert_eq!(sim.handlers[2].blockdb().pending_root().unwrap().blockid, root_a);
    assert_eq!(sim.handlers[2].client_state(peer_of(0)), ClientState::Known);
    assert_eq!(sim.handlers[2].client_state(peer_of(1)), ClientState::New);

    sim.handlers[0].connect(peer_of(2));
    sim.carry_out(2, first);
    sim.run();
    assert_eq!(sim.handlers[2].blockdb().root().blockid, root_a);
    assert!(sim.handlers[2].blockdb().pending_root().is_none());

    let again = sim.handlers[2].handle(peer_of(1), update(root_b));
    assert_eq!(again.len(), 1);
    sim.handlers[1].connect(peer_of(2));
    sim.carry_out(2, again);
    sim.run();
    assert_eq!(sim.handlers[2].blockdb().root().blockid, root_b);
    assert_eq!(sim.plans.len(), 2);
    assert_eq!(sim.plans[1], (2, vec![FsOp::WriteFile(name(&["b"]), vec![2u8])]));
}

fn lone_handler() -> Handler {
    let t = tree(1, &[("f", vec![9u8; 20])]);
    Handler::new(t.db, t.catalog)
}

#[test]
fn messages_of_unknown_peers_are_dropped() {
    let mut handler = lone_handler();
    let root = handler.blockdb().root().blockid;
    let msgs: Vec<Msg> = vec![
        Msg::RootUpdateResponse(RootUpdateResponse { from_blockid: [0; 32], to_blockid: [1; 32], to_key: [0; 16] }),
        Msg::BlockRequest(BlockRequest { blockid: root }),
        Msg::BlockRequestResponse(BlockRequestResponse { blockid: [1; 32], start_id: 0, end_id: 1, len: 1 }),
        Msg::TransferPayload(TransferPayload { chunkid: 0, data: vec![1] }),
        Msg::TransferStatus(TransferStatus { missing_ranges: vec![(0, 1)] }),
    ];
    for msg in msgs {
        assert!(handler.handle(7, msg).is_empty());
    }
    assert_eq!(handler.client_state(7), ClientState::New);
    assert!(handler.status_update(7).is_none());
    assert!(matches!(handler.next_payload(7), SendStep::Idle));
    assert!(!handler.retry_due(7, &root));
    assert_eq!(handler.blockdb().block_count(), 2);
}

#[test]
fn root_update_of_a_known_peer_is_dropped() {
    let mut handler = lone_handler();
    handler.connect(7);
    assert_eq!(handler.client_state(7), ClientState::Known);
    let update = RootUpdate {
        nonce: [0; 12],
        from_blockid: [0; 32],
        to_blockref: BlockRef::new([5; 32], [0; 16], Vec::new()),
    };
    assert!(handler.handle(7, Msg::RootUpdate(update)).is_empty());
    assert!(handler.blockdb().pending_root().is_none());
}

#[test]
fn connect_announces_the_root() {
    let mut handler = lone_handler();
    let root = handler.blockdb().root().blockid;
    let effects = handler.connect(7);
    assert_eq!(effects.len(), 1);
    match &effects[0] {
        Effect::ScheduleRetry(Msg::RootUpdate(update), peer) => {
            assert_eq!(*peer, 7);
            assert_eq!(update.from_blockid, [0u8; 32]);
            assert_eq!(update.to_blockref.blockid, root);
            assert_eq!(update.to_blockref.key, [0xee; 16]);
        }
        _ => panic!("no announcement"),
    }
}

#[test]
fn matching_root_is_answered_without_a_connection() {
    let mut handler = lone_handler();
    let root = handler.blockdb().root().blockid;
    let update = RootUpdate {
        nonce: [1; 12],
        from_blockid: [0; 32],
        to_blockref: BlockRef::new(root, [0; 16], Vec::new()),
    };
    let effects = handler.unconnected_root_update(7, update);
    assert_eq!(effects.len(), 1);
    match &effects[0] {
        Effect::SendNow(Msg::RootUpdateResponse(res), peer) => {
            assert_eq!(*peer, 7);
            assert_eq!(res.from_blockid, root);
            assert_eq!(res.to_blockid, root);
            assert_eq!(res.to_key, [0xee; 16]);
        }
        _ => panic!("no answer"),
    }
    assert_eq!(handler.client_state(7), ClientState::New);
}

#[test]
fn other_root_becomes_pending_and_its_block_is_asked_for() {
    let mut handler = lone_handler();
    let update = RootUpdate {
        nonce: [1; 12],
        from_blockid: [0; 32],
        to_blockref: BlockRef::new([5; 32], [6; 16], Vec::new()),
    };
    let effects = handler.unconnected_root_update(7, update);
    assert_eq!(effects.len(), 1);
    match &effects[0] {
        Effect::ScheduleRetry(Msg::BlockRequest(req), peer) => {
            assert_eq!(*peer, 7);
            assert_eq!(req.blockid, [5u8; 32]);
        }
        _ => panic!("no request"),
    }
    assert_eq!(handler.client_state(7), ClientState::Known);
    assert!(handler.retry_due(7, &[5; 32]));
    assert!(!handler.retry_due(7, &[4; 32]));
    assert_eq!(handler.blockdb().pending_root().unwrap().key, [6u8; 16]);
}

#[test]
fn the_same_block_request_gets_the_same_answer() {
    let mut handler = lone_handler();
    handler.connect(7);
    let root = handler.blockdb().root().blockid;
    let answer = |handler: &mut Handler| -> (u64, u64, u64) {
        let effects = handler.block_request(7, BlockRequest { blockid: root });
        assert_eq!(effects.len(), 1);
        match &effects[0] {
            Effect::SendNow(Msg::BlockRequestResponse(res), 7) => {
                assert_eq!(res.blockid, root);
                (res.start_id, res.end_id, res.len)
            }
            _ => panic!("no answer"),
        }
    };
    let first = answer(&mut handler);
    let second = answer(&mut handler);
    assert_eq!(first, second);
    assert_eq!(first.1, first.0 + 1);
    assert_eq!(first.2, handler.blockdb().get(root).len());
    assert!(handler.block_request(7, BlockRequest { blockid: [3; 32] }).is_empty());
}

#[test]
fn announcement_that_was_not_asked_for_is_dropped() {
    let mut handler = lone_handler();
    handler.connect(7);
    let res = BlockRequestResponse { blockid: [5; 32], start_id: 0, end_id: 1, len: 10 };
    assert_eq!(handler.block_request_response(7, res).err(), Some(TransferError::NotAsked));
    assert!(!handler.blockdb().contains([5; 32]));
    let other = BlockRequestResponse { blockid: [5; 32], start_id: 0, end_id: 1, len: 10 };
    assert_eq!(handler.block_request_response(8, other).err(), Some(TransferError::UnknownPeer));
}

#[test]
fn announcement_with_a_wrong_range_is_dropped() {
    let mut handler = lone_handler();
    let update = RootUpdate {
        nonce: [1; 12],
        from_blockid: [0; 32],
        to_blockref: BlockRef::new([5; 32], [6; 16], Vec::new()),
    };
    handler.unconnected_root_update(7, update);
    let wrong = BlockRequestResponse { blockid: [5; 32], start_id: 0, end_id: 3, len: 10 };
    assert_eq!(handler.block_request_response(7, wrong).err(), Some(TransferError::BadRange));
    assert!(handler.retry_due(7, &[5; 32]));
    assert!(!handler.blockdb().contains([5; 32]));
    let right = BlockRequestResponse { blockid: [5; 32], start_id: 0, end_id: 1, len: 10 };
    assert!(handler.block_request_response(7, right).is_ok());
    assert!(handler.blockdb().contains([5; 32]));
    let again = BlockRequestResponse { blockid: [5; 32], start_id: 0, end_id: 1, len: 10 };
    assert_eq!(handler.block_request_response(7, again).err(), Some(TransferError::NotAsked));
}

#[test]
fn payload_outside_every_range_is_dropped() {
    let mut handler = lone_handler();
    let update = RootUpdate {
        nonce: [1; 12],
        from_blockid: [0; 32],
        to_blockref: BlockRef::new([5; 32], [6; 16], Vec::new()),
    };
    handler.unconnected_root_update(7, update);
    let res = BlockRequestResponse { blockid: [5; 32], start_id: 100, end_id: 101, len: 10 };
    let effects = handler.block_request_response(7, res).unwrap();
    assert!(matches!(effects[..], [Effect::StartStatus(7)]));
    assert!(!handler.retry_due(7, &[5; 32]));
    assert_eq!(handler.status_update(7).unwrap().missing_ranges, vec![(100, 101)]);
    let payload = |chunkid: u64, len: usize| TransferPayload { chunkid, data: vec![0; len] };
    assert_eq!(handler.transfer_payload(7, payload(99, 10)).err(), Some(TransferError::UnknownChunkId));
    assert_eq!(handler.transfer_payload(7, payload(101, 10)).err(), Some(TransferError::UnknownChunkId));
    assert_eq!(handler.transfer_payload(7, payload(100, 9)).err(), Some(TransferError::BadChunk));
    assert_eq!(handler.transfer_payload(8, payload(100, 10)).err(), Some(TransferError::UnknownPeer));
    assert_eq!(handler.status_update(7).unwrap().missing_ranges, vec![(100, 101)]);
}

#[test]
fn payload_with_wrong_bytes_makes_the_block_asked_for_again() {
    let mut handler = lone_handler();
    let update = RootUpdate {
        nonce: [1; 12],
        from_blockid: [0; 32],
        to_blockref: BlockRef::new([5; 32], [6; 16], Vec::new()),
    };
    handler.unconnected_root_update(7, update);
    let res = BlockRequestResponse { blockid: [5; 32], start_id: 100, end_id: 101, len: 10 };
    handler.block_request_response(7, res).unwrap();
    let effects = handler.transfer_payload(7, TransferPayload { chunkid: 100, data: vec![0; 10] }).unwrap();
    assert_eq!(effects.len(), 2);
    assert!(matches!(effects[0], Effect::NudgeStatus(7)));
    match &effects[1] {
        Effect::ScheduleRetry(Msg::BlockRequest(req), 7) => assert_eq!(req.blockid, [5u8; 32]),
        _ => panic!("no request"),
    }
    assert!(!handler.blockdb().contains([5; 32]));
    assert!(handler.retry_due(7, &[5; 32]));
    assert!(handler.status_update(7).unwrap().missing_ranges.is_empty());
}

#[test]
fn a_request_is_sent_again_every_second() {
    assert_eq!(RETRY_MILLIS, 1000);
}

#[test]
fn a_new_peer_starts_with_nothing_but_its_request() {
    let mut handler = lone_handler();
    handler.connect(3);
    let update = RootUpdate {
        nonce: [1; 12],
        from_blockid: [0; 32],
        to_blockref: BlockRef::new([5; 32], [6; 16], Vec::new()),
    };
    assert_eq!(handler.unconnected_root_update(7, update).len(), 1);
    assert!(!handler.root_update_due(7));
    assert!(handler.retry_due(7, &[5; 32]));
    assert_eq!(handler.status_update(7).unwrap().missing_ranges, Vec::new());
    assert!(matches!(handler.next_payload(7), SendStep::Idle));
    // The peer that was there before keeps what was kept for it.
    assert_eq!(handler.client_state(3), ClientState::Known);
    assert!(handler.root_update_due(3));
    assert!(!handler.retry_due(3, &[5; 32]));
}

#[test]
fn an_answered_announcement_leaves_the_transfers_alone() {
    let mut handler = lone_handler();
    handler.connect(7);
    handler.connect(8);
    let root = handler.blockdb().root().blockid;
    let first = handler.block_request(7, BlockRequest { blockid: root });
    assert_eq!(first.len(), 1);
    let res = RootUpdateResponse { from_blockid: root, to_blockid: root, to_key: [0; 16] };
    assert!(handler.root_update_response(7, res).is_empty());
    assert!(!handler.root_update_due(7));
    assert!(handler.root_update_due(8));
    // The range that was given out is still the block's range.
    let again = handler.block_request(7, BlockRequest { blockid: root });
    match (&first[0], &again[0]) {
        (
            Effect::SendNow(Msg::BlockRequestResponse(a), 7),
            Effect::SendNow(Msg::BlockRequestResponse(b), 7),
        ) => {
            assert_eq!((a.start_id, a.end_id, a.len), (b.start_id, b.end_id, b.len));
        }
        _ => panic!("no answer"),
    }
}

#[test]
fn ranges_go_out_one_behind_the_other() {
    let t = tree(1, &[("f", vec![9u8; 3000])]);
    assert_eq!(t.db.block_count(), 2);
    let root = t.db.root().blockid;
    let file = match t.catalog.get(&root) {
        Some(Decoded::Dir(dir)) => dir.children[0].blockref.blockid,
        _ => panic!("no directory"),
    };
    let mut handler = Handler::new(t.db, t.catalog);
    handler.connect(7);
    let range = |handler: &mut Handler, id: BlockId| -> (u64, u64, u64) {
        match &handler.block_request(7, BlockRequest { blockid: id })[0] {
            Effect::SendNow(Msg::BlockRequestResponse(res), 7) => (res.start_id, res.end_id, res.len),
            _ => panic!("no answer"),
        }
    };
    let (from_a, to_a, len_a) = range(&mut handler, file);
    let (from_b, to_b, _) = range(&mut handler, root);
    assert_eq!(to_a - from_a, (len_a + CHUNK_SIZE as u64 - 1) / CHUNK_SIZE as u64);
    assert!(to_a - from_a >= 3);
    assert_eq!(from_b, to_a);
    assert_eq!(to_b, from_b + 1);
}
