//! The six kinds of message of the synchronisation protocol, one to a
//! datagram: a tag, then the content.
//!
//! A payload and a status are written and read here in full. The other four
//! are records whose content is a self-describing encoding of their fields;
//! here they are framed: the tag, then the encoded record as it is.

use crate::blockdb::{BlockId, BlockRef, Key};
use crate::bytes::{append, copy_range};
use crate::codec::MTU;
use crate::rle::{
    ascending, decode_runs, encode_all, encode_limited, lemma_decode_encoded,
    lemma_encode_limited_all, lemma_encode_limited_len, ranges_of_runs,
};
use crate::varint::{
    len_u64_varint, parse, read_u64_varint, varint_bytes, write_u64_varint, VarintError,
};
use vstd::prelude::*;

verus! {

/// A piece of a block: the chunk id, and the bytes of the chunk.
#[derive(Debug)]
pub struct TransferPayload {
    pub chunkid: u64,
    pub data: Vec<u8>,
}

/// The ranges of chunk ids that a receiver still misses, each from its first
/// field up to, and without, its second.
#[derive(Debug)]
pub struct TransferStatus {
    pub missing_ranges: Vec<(u64, u64)>,
}

/// The announcement of a new root.
#[derive(Debug)]
pub struct RootUpdate {
    pub nonce: [u8; 12],
    pub from_blockid: BlockId,
    pub to_blockref: BlockRef,
}

/// The answer to an announcement: the root that the sender has.
#[derive(Debug)]
pub struct RootUpdateResponse {
    pub from_blockid: BlockId,
    pub to_blockid: BlockId,
    pub to_key: Key,
}

/// The request to send a block.
#[derive(Debug)]
pub struct BlockRequest {
    pub blockid: BlockId,
}

/// The answer to a request: the chunk ids under which the block will come,
/// and its length in bytes.
#[derive(Debug)]
pub struct BlockRequestResponse {
    pub blockid: BlockId,
    pub start_id: u64,
    pub end_id: u64,
    pub len: u64,
}

/// A message.
#[derive(Debug)]
pub enum Msg {
    TransferPayload(TransferPayload),
    TransferStatus(TransferStatus),
    RootUpdate(RootUpdate),
    RootUpdateResponse(RootUpdateResponse),
    BlockRequest(BlockRequest),
    BlockRequestResponse(BlockRequestResponse),
}

impl Msg {
    /// The tag that a datagram with this message starts with.
    pub fn tag(&self) -> (r: u8)
        ensures
            r == match *self {
                Msg::TransferPayload(_) => 0u8,
                Msg::TransferStatus(_) => 1u8,
                Msg::RootUpdate(_) => 2u8,
                Msg::RootUpdateResponse(_) => 3u8,
                Msg::BlockRequest(_) => 4u8,
                Msg::BlockRequestResponse(_) => 5u8,
            },
    {
        match self {
            Msg::TransferPayload(_) => 0,
            Msg::TransferStatus(_) => 1,
            Msg::RootUpdate(_) => 2,
            Msg::RootUpdateResponse(_) => 3,
            Msg::BlockRequest(_) => 4,
            Msg::BlockRequestResponse(_) => 5,
        }
    }
}

/// Which of the four records a datagram holds.
#[derive(Debug, Clone, Copy, PartialEq, Eq, Structural)]
pub enum RecordKind {
    RootUpdate,
    RootUpdateResponse,
    BlockRequest,
    BlockRequestResponse,
}

impl RecordKind {
    /// The tag of the kind.
    pub open spec fn tag_spec(self) -> u8 {
        match self {
            RecordKind::RootUpdate => 2u8,
            RecordKind::RootUpdateResponse => 3u8,
            RecordKind::BlockRequest => 4u8,
            RecordKind::BlockRequestResponse => 5u8,
        }
    }

    /// The tag of the kind.
    pub fn tag(&self) -> (r: u8)
        ensures
            r == self.tag_spec(),
    {
        match self {
            RecordKind::RootUpdate => 2,
            RecordKind::RootUpdateResponse => 3,
            RecordKind::BlockRequest => 4,
            RecordKind::BlockRequestResponse => 5,
        }
    }
}

/// What a datagram holds.
#[derive(Debug)]
pub enum Frame {
    TransferPayload(TransferPayload),
    TransferStatus(TransferStatus),
    /// A record of the kind `kind`, with `body` as its encoded fields.
    Record { kind: RecordKind, body: Vec<u8> },
}

/// What a datagram says.
pub enum FrameView {
    TransferPayload { chunkid: u64, data: Seq<u8> },
    TransferStatus { missing_ranges: Seq<(nat, nat)> },
    Record { kind: RecordKind, body: Seq<u8> },
}

/// A list of ranges as pairs of numbers.
pub open spec fn pairs(ranges: Seq<(u64, u64)>) -> Seq<(nat, nat)> {
    ranges.map_values(|p: (u64, u64)| (p.0 as nat, p.1 as nat))
}

impl View for Frame {
    type V = FrameView;

    open spec fn view(&self) -> FrameView {
        match self {
            Frame::TransferPayload(p) => FrameView::TransferPayload {
                chunkid: p.chunkid,
                data: p.data@,
            },
            Frame::TransferStatus(s) => FrameView::TransferStatus {
                missing_ranges: pairs(s.missing_ranges@),
            },
            Frame::Record { kind, body } => FrameView::Record { kind: *kind, body: body@ },
        }
    }
}

/// A reader of the variable-length integers of a datagram, one after the
/// other.
pub struct VarintIter(crate::codec::RunlengthIter);

impl VarintIter {
    /// The reading position lies inside the data.
    pub closed spec fn wf(&self) -> bool {
        self.0.wf()
    }

    /// The numbers that are still to come.
    pub closed spec fn remaining(&self) -> Seq<nat> {
        self.0.remaining()
    }

    /// A reader at the start of `data`.
    pub fn new(data: Vec<u8>) -> (r: VarintIter)
        ensures
            r.wf(),
            r.remaining() == decode_runs(data@, 0),
    {
        VarintIter(crate::codec::RunlengthIter::new(data))
    }

    /// Reads the next number. There is none where the data ends, also inside
    /// a number, or where a number does not fit 64 bits.
    pub fn next(&mut self) -> (r: Option<u64>)
        requires
            old(self).wf(),
        ensures
            final(self).wf(),
            old(self).remaining().len() == 0 ==> {
                &&& r.is_none()
                &&& final(self).remaining() == old(self).remaining()
            },
            old(self).remaining().len() > 0 ==> {
                &&& r.is_some()
                &&& r.unwrap() == old(self).remaining()[0]
                &&& final(self).remaining() == old(self).remaining().drop_first()
            },
    {
        self.0.next()
    }
}

/// Why a datagram could not be written or read.
#[derive(Debug, Clone, Copy, PartialEq, Eq)]
pub enum WireError {
    /// The message does not fit into one datagram.
    Oversize,
    /// The ranges of a status are not in ascending order.
    Unordered,
    /// A number ends with the datagram, before its last byte.
    Truncated,
    /// A number does not fit 64 bits.
    Overflow,
    /// The tag is not known.
    UnknownTag(u8),
}

/// The run lengths that stand for the ascending ranges `ranges` from place
/// `from` on, counted from the id `base`: for each range the distance to its
/// start, then its length.
pub open spec fn deltas(ranges: Seq<(nat, nat)>, from: nat, base: nat) -> Seq<nat>
    decreases ranges.len() - from,
{
    if from >= ranges.len() {
        Seq::empty()
    } else {
        seq![
            (ranges[from as int].0 - base) as nat,
            (ranges[from as int].1 - ranges[from as int].0) as nat,
        ] + deltas(ranges, from + 1, ranges[from as int].1)
    }
}

/// The run lengths of ascending ranges stand for these ranges.
pub proof fn lemma_ranges_of_deltas(ranges: Seq<(nat, nat)>, from: nat, base: nat)
    requires
        ascending(ranges),
        from <= ranges.len(),
        from < ranges.len() ==> base <= ranges[from as int].0,
        forall|k: int| 0 <= k < ranges.len() ==> (#[trigger] ranges[k]).1 <= u64::MAX,
    ensures
        ranges_of_runs(deltas(ranges, from, base), base) == ranges.skip(from as int),
    decreases ranges.len() - from,
{
    if from < ranges.len() {
        let r = ranges[from as int];
        let d = deltas(ranges, from, base);
        let rest = deltas(ranges, from + 1, r.1);
        assert(d =~= seq![(r.0 - base) as nat, (r.1 - r.0) as nat] + rest);
        assert(d.skip(2) =~= rest);
        if from + 1 < ranges.len() {
            assert(r.1 <= ranges[from as int + 1].0);
        }
        lemma_ranges_of_deltas(ranges, from + 1, r.1);
        assert(ranges.skip(from as int) =~= seq![r] + ranges.skip(from as int + 1));
    } else {
        assert(ranges.skip(from as int) =~= Seq::<(nat, nat)>::empty());
    }
}

/// Every run length of ascending ranges below `u64::MAX` fits 64 bits.
pub proof fn lemma_deltas_fit(ranges: Seq<(nat, nat)>, from: nat, base: nat)
    requires
        ascending(ranges),
        from <= ranges.len(),
        from < ranges.len() ==> base <= ranges[from as int].0,
        forall|k: int| 0 <= k < ranges.len() ==> (#[trigger] ranges[k]).1 <= u64::MAX,
    ensures
        forall|k: int|
            0 <= k < deltas(ranges, from, base).len() ==> deltas(ranges, from, base)[k]
                <= u64::MAX,
    decreases ranges.len() - from,
{
    if from < ranges.len() {
        let r = ranges[from as int];
        let d = deltas(ranges, from, base);
        let rest = deltas(ranges, from + 1, r.1);
        if from + 1 < ranges.len() {
            assert(r.1 <= ranges[from as int + 1].0);
        }
        lemma_deltas_fit(ranges, from + 1, r.1);
        assert forall|k: int| 0 <= k < d.len() implies d[k] <= u64::MAX by {
            if k >= 2 {
                assert(d[k] == rest[k - 2]);
            }
        }
    }
}

/// The encodings of a list of run lengths that starts with `first` are
/// nothing where the encoding of `first` does not fit into the limit, and
/// else that encoding and then what fits of the rest.
pub proof fn lemma_encode_step(first: nat, rest: Seq<nat>, limit: int)
    ensures
        encode_limited(seq![first] + rest, limit) == if varint_bytes(first).len() > limit {
            Seq::<u8>::empty()
        } else {
            varint_bytes(first) + encode_limited(rest, limit - varint_bytes(first).len())
        },
{
    let all = seq![first] + rest;
    assert(all[0] == first);
    assert(all.drop_first() =~= rest);
}

/// What fits of the run lengths of the ranges from place `at` on, in terms of
/// the two run lengths of the range at `at` and what fits of the rest.
pub proof fn lemma_status_step(ranges: Seq<(nat, nat)>, at: nat, base: nat, room: int)
    requires
        at < ranges.len(),
        base <= ranges[at as int].0 <= ranges[at as int].1,
    ensures
        encode_limited(deltas(ranges, at, base), room) == ({
            let gap = varint_bytes((ranges[at as int].0 - base) as nat);
            let run = varint_bytes((ranges[at as int].1 - ranges[at as int].0) as nat);
            if gap.len() > room {
                Seq::<u8>::empty()
            } else if run.len() > room - gap.len() {
                gap
            } else {
                gap + run + encode_limited(
                    deltas(ranges, at + 1, ranges[at as int].1),
                    room - gap.len() - run.len(),
                )
            }
        }),
{
    let r = ranges[at as int];
    let gap = (r.0 - base) as nat;
    let run = (r.1 - r.0) as nat;
    let rest = deltas(ranges, at + 1, r.1);
    assert(deltas(ranges, at, base) =~= seq![gap] + (seq![run] + rest));
    lemma_encode_step(gap, seq![run] + rest, room);
    lemma_encode_step(run, rest, room - varint_bytes(gap).len());
    let g = varint_bytes(gap);
    let u = varint_bytes(run);
    if g.len() <= room {
        if u.len() > room - g.len() {
            assert(g + Seq::<u8>::empty() =~= g);
        } else {
            let tail = encode_limited(rest, room - g.len() - u.len());
            assert(g + (u + tail) =~= g + u + tail);
        }
    }
}

/// Appends the encoding of `value` to `body` where it fits into `room`
/// bytes, which it then takes up, and says whether it did.
fn emit(body: &mut Vec<u8>, value: u64, room: &mut usize) -> (fitted: bool)
    ensures
        fitted == (varint_bytes(value as nat).len() <= *old(room)),
        fitted ==> final(body)@ == old(body)@ + varint_bytes(value as nat) && *final(room)
            == *old(room) - varint_bytes(value as nat).len(),
        !fitted ==> final(body)@ == old(body)@ && *final(room) == *old(room),
{
    let len: usize = len_u64_varint(value);
    if len > *room {
        return false;
    }
    write_u64_varint(body, value);
    *room = *room - len;
    true
}

/// The datagram of a payload: the tag 0, the chunk id, the bytes.
pub open spec fn payload_wire(chunkid: u64, data: Seq<u8>) -> Seq<u8> {
    seq![0u8] + varint_bytes(chunkid as nat) + data
}

/// The datagram of a status: the tag 1, then the run lengths of the ranges,
/// as many as fit.
pub open spec fn status_wire(ranges: Seq<(nat, nat)>) -> Seq<u8> {
    seq![1u8] + encode_limited(deltas(ranges, 0, 0), MTU - 1)
}

/// The datagram of a record: its tag, then its encoded fields.
pub open spec fn record_wire(kind: RecordKind, body: Seq<u8>) -> Seq<u8> {
    seq![kind.tag_spec()] + body
}

/// What reading a datagram gives. An empty datagram holds nothing.
pub open spec fn parse_frame(bytes: Seq<u8>) -> Result<Option<FrameView>, WireError> {
    if bytes.len() == 0 {
        Ok(None)
    } else if bytes[0] == 0 {
        match parse(bytes, 1) {
            Ok((chunkid, next)) => Ok(
                Some(
                    FrameView::TransferPayload {
                        chunkid,
                        data: bytes.subrange(next as int, bytes.len() as int),
                    },
                ),
            ),
            Err(VarintError::Truncated) => Err(WireError::Truncated),
            Err(VarintError::Overflow) => Err(WireError::Overflow),
        }
    } else if bytes[0] == 1 {
        Ok(
            Some(
                FrameView::TransferStatus {
                    missing_ranges: ranges_of_runs(decode_runs(bytes, 1), 0),
                },
            ),
        )
    } else if bytes[0] == 2 {
        Ok(Some(FrameView::Record { kind: RecordKind::RootUpdate, body: bytes.skip(1) }))
    } else if bytes[0] == 3 {
        Ok(Some(FrameView::Record { kind: RecordKind::RootUpdateResponse, body: bytes.skip(1) }))
    } else if bytes[0] == 4 {
        Ok(Some(FrameView::Record { kind: RecordKind::BlockRequest, body: bytes.skip(1) }))
    } else if bytes[0] == 5 {
        Ok(Some(FrameView::Record { kind: RecordKind::BlockRequestResponse, body: bytes.skip(1) }))
    } else {
        Err(WireError::UnknownTag(bytes[0]))
    }
}

/// Whether the ranges are in ascending order: each ends where or before the
/// next one starts, and none ends before it starts.
pub fn is_ascending(ranges: &Vec<(u64, u64)>) -> (r: bool)
    ensures
        r == ascending(pairs(ranges@)),
{
    let ghost view = pairs(ranges@);
    let mut i: usize = 0;
    let mut base: u64 = 0;
    while i < ranges.len()
        invariant
            i <= ranges@.len(),
            view == pairs(ranges@),
            ascending(view.subrange(0, i as int)),
            forall|k: int| 0 <= k < i ==> (#[trigger] view[k]).1 <= base,
            i > 0 ==> base == view[i - 1].1,
            i == 0 ==> base == 0,
        decreases ranges@.len() - i,
    {
        let r: (u64, u64) = ranges[i];
        if r.0 < base || r.1 < r.0 {
            proof {
                assert(view[i as int] == (r.0 as nat, r.1 as nat));
                if r.0 < base {
                    if ascending(view) {
                        assert(view[i - 1].1 <= view[i as int].0);
                    }
                }
            }
            return false;
        }
        proof {
            let next = view.subrange(0, i + 1);
            assert(view[i as int] == (r.0 as nat, r.1 as nat));
            assert forall|k: int, l: int| 0 <= k < l < next.len() implies (#[trigger] next[k]).1
                <= (#[trigger] next[l]).0 by {
                if l < i {
                    assert(view.subrange(0, i as int)[k].1 <= view.subrange(0, i as int)[l].0);
                } else {
                    assert(view[k].1 <= base);
                }
            }
            assert forall|k: int| 0 <= k < next.len() implies (#[trigger] next[k]).0
                <= next[k].1 by {
                if k < i {
                    assert(view.subrange(0, i as int)[k].0 <= view.subrange(0, i as int)[k].1);
                }
            }
        }
        base = r.1;
        i += 1;
    }
    proof {
        assert(view.subrange(0, i as int) =~= view);
    }
    true
}

/// The codec of the protocol's datagrams.
pub struct MyCodec;

impl MyCodec {
    /// Appends the datagram of `payload` to `dst`, where it fits into one:
    /// the tag, the chunk id and the bytes are at most `MTU` bytes together.
    pub fn encode_payload(payload: &TransferPayload, dst: &mut Vec<u8>) -> (r: Result<
        (),
        WireError,
    >)
        ensures
            r.is_ok() <==> 1 + varint_bytes(payload.chunkid as nat).len() + payload.data@.len()
                <= MTU,
            r.is_ok() ==> final(dst)@ == old(dst)@ + payload_wire(payload.chunkid, payload.data@),
            r.is_err() ==> {
                &&& r == Err::<(), WireError>(WireError::Oversize)
                &&& final(dst)@ == old(dst)@
            },
    {
        let varint_len: usize = len_u64_varint(payload.chunkid);
        if payload.data.len() > MTU - 1 - varint_len {
            return Err(WireError::Oversize);
        }
        dst.push(0);
        write_u64_varint(dst, payload.chunkid);
        append(dst, payload.data.as_slice());
        proof {
            assert(dst@ =~= old(dst)@ + payload_wire(payload.chunkid, payload.data@));
        }
        Ok(())
    }

    /// Appends the datagram of `status` to `dst`, where its ranges are in
    /// ascending order. The datagram is cut to `MTU` bytes: run lengths that
    /// do not fit are left out.
    pub fn encode_status(status: &TransferStatus, dst: &mut Vec<u8>) -> (r: Result<(), WireError>)
        ensures
            r.is_ok() <==> ascending(pairs(status.missing_ranges@)),
            r.is_ok() ==> final(dst)@ == old(dst)@ + status_wire(pairs(status.missing_ranges@)),
            r.is_err() ==> r == Err::<(), WireError>(WireError::Unordered) && final(dst)@ == old(
                dst,
            )@,
    {
        if !is_ascending(&status.missing_ranges) {
            return Err(WireError::Unordered);
        }
        let ghost view = pairs(status.missing_ranges@);
        let mut body: Vec<u8> = Vec::new();
        let mut room: usize = MTU - 1;
        let mut base: u64 = 0;
        let mut i: usize = 0;
        let mut full: bool = false;
        proof {
            assert(body@ + encode_limited(deltas(view, 0, 0), room as int) =~= encode_limited(
                deltas(view, 0, 0),
                MTU - 1,
            ));
        }
        while i < status.missing_ranges.len() && !full
            invariant
                i <= status.missing_ranges@.len(),
                view == pairs(status.missing_ranges@),
                ascending(view),
                i > 0 ==> base == view[i - 1].1,
                i == 0 ==> base == 0,
                encode_limited(deltas(view, 0, 0), MTU - 1) == body@ + if full {
                    Seq::<u8>::empty()
                } else {
                    encode_limited(deltas(view, i as nat, base as nat), room as int)
                },
            decreases status.missing_ranges@.len() - i,
        {
            let r: (u64, u64) = status.missing_ranges[i];
            proof {
                assert(view[i as int] == (r.0 as nat, r.1 as nat));
                if i > 0 {
                    assert(view[i - 1].1 <= view[i as int].0);
                }
                lemma_status_step(view, i as nat, base as nat, room as int);
            }
            let ghost before = body@;
            let ghost rest = encode_limited(deltas(view, i as nat, base as nat), room as int);
            let fitted: bool = emit(&mut body, r.0 - base, &mut room) && emit(
                &mut body,
                r.1 - r.0,
                &mut room,
            );
            proof {
                let tail = if fitted {
                    encode_limited(deltas(view, (i + 1) as nat, r.1 as nat), room as int)
                } else {
                    Seq::<u8>::empty()
                };
                assert(before + rest =~= body@ + tail);
            }
            full = !fitted;
            base = r.1;
            i += 1;
        }
        dst.push(1);
        append(dst, body.as_slice());
        proof {
            assert(encode_limited(deltas(view, 0, 0), MTU - 1) =~= body@);
            assert(dst@ =~= old(dst)@ + status_wire(view));
        }
        Ok(())
    }

    /// Appends the datagram of a record of the kind `kind` with the encoded
    /// fields `body` to `dst`, where it fits into one.
    pub fn encode_record(kind: RecordKind, body: &[u8], dst: &mut Vec<u8>) -> (r: Result<
        (),
        WireError,
    >)
        ensures
            r.is_ok() <==> 1 + body@.len() <= MTU,
            r.is_ok() ==> final(dst)@ == old(dst)@ + record_wire(kind, body@),
            r.is_err() ==> {
                &&& r == Err::<(), WireError>(WireError::Oversize)
                &&& final(dst)@ == old(dst)@
            },
    {
        if body.len() > MTU - 1 {
            return Err(WireError::Oversize);
        }
        dst.push(kind.tag());
        append(dst, body);
        proof {
            assert(dst@ =~= old(dst)@ + record_wire(kind, body@));
        }
        Ok(())
    }

    /// Appends the datagram of `frame` to `dst`, which is at most `MTU`
    /// bytes long.
    pub fn encode(frame: &Frame, dst: &mut Vec<u8>) -> (r: Result<(), WireError>)
        ensures
            r.is_ok() ==> final(dst)@ == old(dst)@ + frame_wire(frame@),
            r.is_ok() ==> frame_wire(frame@).len() <= MTU,
            r.is_err() ==> final(dst)@ == old(dst)@,
            r.is_ok() == encodable(frame@).is_ok(),
            r matches Err(e) ==> encodable(frame@) == Err::<(), WireError>(e),
    {
        proof {
            if encodable(frame@).is_ok() {
                lemma_frame_fits(frame@);
            }
        }
        match frame {
            Frame::TransferPayload(p) => MyCodec::encode_payload(p, dst),
            Frame::TransferStatus(s) => MyCodec::encode_status(s, dst),
            Frame::Record { kind, body } => MyCodec::encode_record(*kind, body.as_slice(), dst),
        }
    }

    /// Reads the ranges of a status from `src`, from `pos` on.
    fn read_ranges(src: &[u8], pos: usize) -> (r: Vec<(u64, u64)>)
        requires
            pos <= src@.len(),
        ensures
            pairs(r@) == ranges_of_runs(decode_runs(src@, pos as int), 0),
    {
        let mut ranges: Vec<(u64, u64)> = Vec::new();
        let ghost target = ranges_of_runs(decode_runs(src@, pos as int), 0);
        let mut at: usize = pos;
        let mut acc: u64 = 0;
        proof {
            assert(pairs(ranges@) =~= Seq::<(nat, nat)>::empty());
            assert(target =~= pairs(ranges@) + target);
        }
        loop
            invariant
                at <= src@.len(),
                target == pairs(ranges@) + ranges_of_runs(
                    decode_runs(src@, at as int),
                    acc as nat,
                ),
            ensures
                target == pairs(ranges@),
            decreases src@.len() - at,
        {
            let ghost rs = decode_runs(src@, at as int);
            let (present, second) = match read_u64_varint(src, at) {
                Ok(v) => v,
                Err(_) => {
                    proof {
                        assert(rs.len() == 0);
                        assert(target =~= pairs(ranges@));
                    }
                    break ;
                },
            };
            let (absent, behind) = match read_u64_varint(src, second) {
                Ok(v) => v,
                Err(_) => {
                    proof {
                        assert(decode_runs(src@, second as int).len() == 0);
                        assert(rs.len() == 1);
                        assert(target =~= pairs(ranges@));
                    }
                    break ;
                },
            };
            proof {
                let tail = decode_runs(src@, behind as int);
                assert(decode_runs(src@, second as int) =~= seq![absent as nat] + tail);
                assert(rs =~= seq![present as nat] + (seq![absent as nat] + tail));
                assert(rs.skip(2) =~= tail);
                assert(rs[0] == present && rs[1] == absent);
            }
            if present > u64::MAX - acc || absent > u64::MAX - acc - present {
                proof {
                    assert(target =~= pairs(ranges@));
                }
                break ;
            }
            let from: u64 = acc + present;
            let to: u64 = from + absent;
            let ghost before = pairs(ranges@);
            ranges.push((from, to));
            proof {
                assert(pairs(ranges@) =~= before + seq![(from as nat, to as nat)]);
                let tail = ranges_of_runs(decode_runs(src@, behind as int), to as nat);
                assert(before + (seq![(from as nat, to as nat)] + tail) =~= pairs(ranges@) + tail);
            }
            acc = to;
            at = behind;
        }
        ranges
    }

    /// Reads the datagram `src`.
    pub fn decode(src: &[u8]) -> (r: Result<Option<Frame>, WireError>)
        ensures
            match r {
                Ok(Some(frame)) => parse_frame(src@) == Ok::<Option<FrameView>, WireError>(
                    Some(frame@),
                ),
                Ok(None) => parse_frame(src@) == Ok::<Option<FrameView>, WireError>(None),
                Err(e) => parse_frame(src@) == Err::<Option<FrameView>, WireError>(e),
            },
    {
        if src.len() == 0 {
            return Ok(None);
        }
        let tag: u8 = src[0];
        if tag == 0 {
            match read_u64_varint(src, 1) {
                Ok((chunkid, next)) => {
                    let data: Vec<u8> = copy_range(src, next, src.len());
                    Ok(Some(Frame::TransferPayload(TransferPayload { chunkid, data })))
                },
                Err(VarintError::Truncated) => Err(WireError::Truncated),
                Err(VarintError::Overflow) => Err(WireError::Overflow),
            }
        } else if tag == 1 {
            let missing_ranges: Vec<(u64, u64)> = MyCodec::read_ranges(src, 1);
            Ok(Some(Frame::TransferStatus(TransferStatus { missing_ranges })))
        } else {
            let kind: RecordKind = if tag == 2 {
                RecordKind::RootUpdate
            } else if tag == 3 {
                RecordKind::RootUpdateResponse
            } else if tag == 4 {
                RecordKind::BlockRequest
            } else if tag == 5 {
                RecordKind::BlockRequestResponse
            } else {
                return Err(WireError::UnknownTag(tag));
            };
            let body: Vec<u8> = copy_range(src, 1, src.len());
            proof {
                assert(body@ =~= src@.skip(1));
            }
            Ok(Some(Frame::Record { kind, body }))
        }
    }
}

/// The datagram of a frame.
pub open spec fn frame_wire(frame: FrameView) -> Seq<u8> {
    match frame {
        FrameView::TransferPayload { chunkid, data } => payload_wire(chunkid, data),
        FrameView::TransferStatus { missing_ranges } => status_wire(missing_ranges),
        FrameView::Record { kind, body } => record_wire(kind, body),
    }
}

/// Whether a frame can be written, and the error where it cannot.
pub open spec fn encodable(frame: FrameView) -> Result<(), WireError> {
    match frame {
        FrameView::TransferPayload { chunkid, data } => if 1 + varint_bytes(chunkid as nat).len()
            + data.len() <= MTU {
            Ok(())
        } else {
            Err(WireError::Oversize)
        },
        FrameView::TransferStatus { missing_ranges } => if ascending(missing_ranges) {
            Ok(())
        } else {
            Err(WireError::Unordered)
        },
        FrameView::Record { kind, body } => if 1 + body.len() <= MTU {
            Ok(())
        } else {
            Err(WireError::Oversize)
        },
    }
}

/// The datagram of a frame that can be written is at most `MTU` bytes long.
pub proof fn lemma_frame_fits(frame: FrameView)
    requires
        encodable(frame).is_ok(),
    ensures
        frame_wire(frame).len() <= MTU,
{
    match frame {
        FrameView::TransferStatus { missing_ranges } => {
            lemma_encode_limited_len(deltas(missing_ranges, 0, 0), MTU - 1);
        },
        _ => {},
    }
}

/// Whether the whole of a frame goes into its datagram: its run lengths are
/// not cut, where it is a status, and its ranges end at or below `u64::MAX`.
pub open spec fn uncut(frame: FrameView) -> bool {
    match frame {
        FrameView::TransferStatus { missing_ranges } => {
            &&& encode_all(deltas(missing_ranges, 0, 0)).len() <= MTU - 1
            &&& forall|k: int|
                0 <= k < missing_ranges.len() ==> (#[trigger] missing_ranges[k]).1 <= u64::MAX
        },
        _ => true,
    }
}

/// A frame that is written and read again is the same frame, where it can be
/// written and nothing of it is cut.
pub proof fn lemma_frame_round_trip(frame: FrameView)
    requires
        encodable(frame).is_ok(),
        uncut(frame),
    ensures
        parse_frame(frame_wire(frame)) == Ok::<Option<FrameView>, WireError>(Some(frame)),
{
    let bytes = frame_wire(frame);
    match frame {
        FrameView::TransferPayload { chunkid, data } => {
            crate::varint::lemma_group_of_encoding(seq![0u8], chunkid as nat, data);
            crate::varint::lemma_varint_len(chunkid as nat);
            let next = 1 + varint_bytes(chunkid as nat).len();
            assert(bytes.subrange(next as int, bytes.len() as int) =~= data);
        },
        FrameView::TransferStatus { missing_ranges } => {
            let d = deltas(missing_ranges, 0, 0);
            lemma_deltas_fit(missing_ranges, 0, 0);
            lemma_encode_limited_all(d, MTU - 1);
            lemma_decode_encoded(seq![1u8], d);
            lemma_ranges_of_deltas(missing_ranges, 0, 0);
            assert(missing_ranges.skip(0) =~= missing_ranges);
        },
        FrameView::Record { kind, body } => {
            assert(bytes.skip(1) =~= body);
        },
    }
}

} // verus!
