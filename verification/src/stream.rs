//! Packets of a stream of chunks: each carries its id as a variable-length
//! integer, then the data.

use crate::bytes::{append, zeros};
use crate::codec::MTU;
use crate::varint::{
    group_value, len_u64_varint, lemma_varint_len, parse, read_u64_varint, varint_bytes,
    write_u64_varint, VarintError,
};
use vstd::prelude::*;
use vstd::slice::slice_subrange;

verus! {

/// A piece of a file with the id that it is sent under.
pub struct FileChunk {
    pub id: u64,
    pub data: Vec<u8>,
}

/// What follows from the id of a chunk for its packet.
pub struct ChunkInfo {
    id: u64,
}

impl ChunkInfo {
    /// The id, as a number.
    pub closed spec fn id_spec(&self) -> nat {
        self.id as nat
    }

    /// The information on the chunk with the id `id`.
    pub fn new(id: u64) -> (r: ChunkInfo)
        ensures
            r.id_spec() == id,
    {
        ChunkInfo { id }
    }

    /// The id of the chunk.
    pub fn id(&self) -> (r: u64)
        ensures
            r == self.id_spec(),
    {
        self.id
    }

    /// The number of bytes that the id takes in the packet.
    pub fn id_field_length(&self) -> (r: usize)
        ensures
            r == varint_bytes(self.id_spec()).len(),
            1 <= r <= 10,
    {
        len_u64_varint(self.id)
    }

    /// The number of data bytes that a full packet of the chunk holds.
    pub fn data_length(&self) -> (r: usize)
        ensures
            r == MTU - varint_bytes(self.id_spec()).len(),
    {
        MTU - self.id_field_length()
    }

    /// The number of data bytes that the full packets with the ids from
    /// `start` up to, and without, the id of this chunk hold together, or the
    /// largest number where that lies beyond it.
    pub fn data_since(&self, start: u64) -> (r: u64)
        ensures
            r == if data_total(start as int, self.id_spec() as int) > u64::MAX {
                u64::MAX as nat
            } else {
                data_total(start as int, self.id_spec() as int)
            },
    {
        let mut sum: u64 = 0;
        let mut val: u64 = start;
        while val < self.id
            invariant
                start <= val <= self.id || (start > self.id && val == start),
                sum == if data_total(start as int, val as int) > u64::MAX {
                    u64::MAX as nat
                } else {
                    data_total(start as int, val as int)
                },
            decreases self.id - val,
        {
            let step: u64 = (MTU - len_u64_varint(val)) as u64;
            proof {
                lemma_data_total_step(start as int, val as int);
            }
            sum = if sum > u64::MAX - step {
                u64::MAX
            } else {
                sum + step
            };
            val += 1;
        }
        proof {
            if start > self.id {
                assert(data_total(start as int, self.id_spec() as int) == 0);
            }
        }
        sum
    }

    /// The id of the packet in which the byte `size` of a stream lies whose
    /// first byte is the first data byte of the full packet of this chunk:
    /// the first id up to which the full packets hold more than `size` data
    /// bytes together. There is none where the ids end before.
    pub fn id_until(&self, size: u64) -> (r: Option<u64>)
        ensures
            match r {
                Some(val) => self.id_spec() <= val && data_total(self.id_spec() as int, val as int)
                    <= size < data_total(self.id_spec() as int, val + 1),
                None => data_total(self.id_spec() as int, u64::MAX + 1) <= size,
            },
    {
        let mut sum: u64 = 0;
        let mut val: u64 = self.id;
        loop
            invariant
                self.id <= val,
                sum == data_total(self.id_spec() as int, val as int),
                sum <= size,
            decreases u64::MAX - val,
        {
            let step: u64 = (MTU - len_u64_varint(val)) as u64;
            proof {
                lemma_data_total_step(self.id_spec() as int, val as int);
            }
            if step > size - sum {
                return Some(val);
            }
            sum = sum + step;
            if val == u64::MAX {
                return None;
            }
            val += 1;
        }
    }
}

/// The number of data bytes that the full packets with the ids from `from`
/// up to, and without, `to` hold together.
pub open spec fn data_total(from: int, to: int) -> nat
    decreases to - from,
{
    if from >= to || to <= 0 {
        0
    } else {
        data_total(from, to - 1) + (MTU - varint_bytes((to - 1) as nat).len()) as nat
    }
}

/// One more packet holds its data bytes more.
pub proof fn lemma_data_total_step(from: int, to: int)
    requires
        0 <= from <= to <= u64::MAX,
    ensures
        data_total(from, to + 1) == data_total(from, to) + MTU - varint_bytes(to as nat).len(),
        varint_bytes(to as nat).len() <= 10,
{
    lemma_varint_len(to as nat);
}

/// The shortest encoding of the value of a group of bytes is not longer than
/// the group.
pub proof fn lemma_shortest_encoding(bytes: Seq<u8>, pos: int, end: int)
    requires
        pos < end,
    ensures
        varint_bytes(group_value(bytes, pos, end)).len() <= end - pos,
    decreases end - pos,
{
    let v = group_value(bytes, pos, end);
    let rest = group_value(bytes, pos + 1, end);
    lemma_varint_len(v);
    if v >= 128 {
        assert(v == (bytes[pos] % 128) as nat + 128 * rest);
        assert(rest >= 1);
        assert(pos + 1 < end);
        assert(v / 128 == rest);
        lemma_shortest_encoding(bytes, pos + 1, end);
    }
}

/// A datagram that carries a chunk: its id, then the data.
pub struct Packet {
    id_field_size: usize,
    id: u64,
    buf: Vec<u8>,
}

impl Packet {
    /// The id, as a number.
    pub closed spec fn id_spec(&self) -> nat {
        self.id as nat
    }

    /// The number of bytes at the start of the datagram that are counted as
    /// the id: the length of the shortest encoding of the id.
    pub closed spec fn field_size(&self) -> nat {
        self.id_field_size as nat
    }

    /// The bytes of the datagram.
    pub closed spec fn bytes(&self) -> Seq<u8> {
        self.buf@
    }

    /// The id field is that of the id and lies inside the datagram.
    pub open spec fn wf(&self) -> bool {
        &&& self.field_size() == varint_bytes(self.id_spec()).len()
        &&& self.field_size() <= self.bytes().len()
    }

    /// A full packet for the chunk `id`, built in the storage of `buf`, whose
    /// content is dropped: the id, then zero bytes up to the largest
    /// datagram.
    pub fn new(id: u64, buf: Vec<u8>) -> (r: Packet)
        ensures
            r.wf(),
            r.id_spec() == id,
            r.bytes() == varint_bytes(id as nat) + zeros(
                (MTU - varint_bytes(id as nat).len()) as nat,
            ),
    {
        let mut buf = buf;
        buf.clear();
        let id_field_size: usize = len_u64_varint(id);
        write_u64_varint(&mut buf, id);
        buf.resize(MTU, 0);
        proof {
            assert(buf@ =~= varint_bytes(id as nat) + zeros(
                (MTU - varint_bytes(id as nat).len()) as nat,
            ));
        }
        Packet { id_field_size, id, buf }
    }

    /// The packet that the datagram `src` holds, its id read from the start.
    pub fn decode(src: Vec<u8>) -> (r: Result<Packet, VarintError>)
        ensures
            match r {
                Ok(p) => {
                    &&& p.wf()
                    &&& p.bytes() == src@
                    &&& parse(src@, 0).is_ok()
                    &&& p.id_spec() == parse(src@, 0).unwrap().0
                },
                Err(e) => parse(src@, 0) == Err::<(u64, usize), VarintError>(e),
            },
    {
        match read_u64_varint(src.as_slice(), 0) {
            Ok((id, next)) => {
                proof {
                    lemma_shortest_encoding(src@, 0, next as int);
                }
                Ok(Packet { id_field_size: len_u64_varint(id), id, buf: src })
            },
            Err(e) => Err(e),
        }
    }

    /// The id of the chunk.
    pub fn id(&self) -> (r: u64)
        ensures
            r == self.id_spec(),
    {
        self.id
    }

    /// The number of bytes that are counted as the id.
    pub fn id_field_size(&self) -> (r: usize)
        ensures
            r == self.field_size(),
    {
        self.id_field_size
    }

    /// Sets the number of data bytes to `data_size`: the datagram is cut, or
    /// filled up with zero bytes.
    pub fn set_data_size(&mut self, data_size: usize)
        requires
            old(self).field_size() + data_size <= usize::MAX,
        ensures
            final(self).id_spec() == old(self).id_spec(),
            final(self).field_size() == old(self).field_size(),
            final(self).bytes() == Seq::new(
                (old(self).field_size() + data_size) as nat,
                |i: int|
                    if i < old(self).bytes().len() {
                        old(self).bytes()[i]
                    } else {
                        0u8
                    },
            ),
    {
        self.buf.resize(self.id_field_size + data_size, 0);
        proof {
            assert(self.bytes() =~= Seq::new(
                (old(self).field_size() + data_size) as nat,
                |i: int|
                    if i < old(self).bytes().len() {
                        old(self).bytes()[i]
                    } else {
                        0u8
                    },
            ));
        }
    }

    /// Gives the datagram back.
    pub fn into_vec(self) -> (r: Vec<u8>)
        ensures
            r@ == self.bytes(),
    {
        self.buf
    }

    /// The data of the packet: what follows the id field.
    pub fn as_ref(&self) -> (r: &[u8])
        requires
            self.wf(),
        ensures
            r@ == self.bytes().subrange(self.field_size() as int, self.bytes().len() as int),
    {
        slice_subrange(self.buf.as_slice(), self.id_field_size, self.buf.len())
    }

    /// Overwrites the data of the packet with `data`.
    pub fn fill(&mut self, data: &[u8])
        requires
            old(self).wf(),
        ensures
            final(self).wf(),
            final(self).id_spec() == old(self).id_spec(),
            final(self).field_size() == old(self).field_size(),
            final(self).bytes() == old(self).bytes().subrange(0, old(self).field_size() as int)
                + data@,
    {
        self.buf.truncate(self.id_field_size);
        append(&mut self.buf, data);
    }
}

} // verus!
