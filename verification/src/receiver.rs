//! The receiving end of an upload: where the chunks of a file go, which of
//! them have arrived, and when the sender is told.

use crate::bitmap::{count_false, BitMap};
use crate::codec::{index_field_size, write_runlength_encoded, Chunk, ChunkInfo, MTU};
use crate::rle::{encode_limited, runs};
use hex::ToHex;
use vstd::prelude::*;

verus! {

/// The SHA-256 digest of `data`.
pub uninterp spec fn sha256(data: Seq<u8>) -> Seq<u8>;

/// `ring::digest::digest` with `ring::digest::SHA256`: the SHA-256 digest of
/// `data`, which depends on the bytes of `data` alone. The function does not
/// take more bytes than have a length in bits that fits 64 bits.
#[verifier::external_body]
fn sha256_of(data: &[u8]) -> (r: Vec<u8>)
    requires
        data@.len() <= 0x1fff_ffff_ffff_ffff,
    ensures
        r@ == sha256(data@),
{
    ring::digest::digest(&ring::digest::SHA256, data).as_ref().to_vec()
}

/// The digit for `n` in lower-case hexadecimal notation.
pub open spec fn hex_digit(n: u8) -> char {
    if n == 0 {
        '0'
    } else if n == 1 {
        '1'
    } else if n == 2 {
        '2'
    } else if n == 3 {
        '3'
    } else if n == 4 {
        '4'
    } else if n == 5 {
        '5'
    } else if n == 6 {
        '6'
    } else if n == 7 {
        '7'
    } else if n == 8 {
        '8'
    } else if n == 9 {
        '9'
    } else if n == 10 {
        'a'
    } else if n == 11 {
        'b'
    } else if n == 12 {
        'c'
    } else if n == 13 {
        'd'
    } else if n == 14 {
        'e'
    } else {
        'f'
    }
}

/// `data` in lower-case hexadecimal notation: two digits for each byte, the
/// upper half first.
pub open spec fn hex_chars(data: Seq<u8>) -> Seq<char>
    decreases data.len(),
{
    if data.len() == 0 {
        Seq::empty()
    } else {
        hex_chars(data.drop_last()) + seq![
            hex_digit(data.last() / 16),
            hex_digit(data.last() % 16),
        ]
    }
}

/// `hex::ToHex::write_hex` on a byte slice, into a new string: the bytes in
/// lower-case hexadecimal notation.
#[verifier::external_body]
fn hex_of(data: &[u8]) -> (r: String)
    ensures
        r@ == hex_chars(data@),
{
    let mut s = String::new();
    data.write_hex(&mut s).unwrap();
    s
}

/// The name of the folder of the client with the token `client_token`: the
/// SHA-256 digest of the token in hexadecimal notation.
pub fn client_folder(client_token: &[u8]) -> (r: String)
    requires
        client_token@.len() <= 0x1fff_ffff_ffff_ffff,
    ensures
        r@ == hex_chars(sha256(client_token@)),
{
    let digest: Vec<u8> = sha256_of(client_token);
    hex_of(digest.as_slice())
}

/// Whether `x` is a power of two.
pub open spec fn is_power_of_two(x: u64) -> bool {
    x != 0 && x & ((x - 1) as u64) == 0
}

/// What the receiver waits for.
#[derive(Debug, Clone, Copy, PartialEq, Eq, Structural)]
pub enum State {
    /// The request that says which file comes.
    WaitForAckAndCommand,
    /// The next chunk.
    WaitForChunk,
    /// The end of the writing of the chunk with this index.
    WritingChunk(u64),
    /// Nothing: the upload is over.
    Shutdown,
}

/// What is to be done with a chunk that came.
#[derive(Debug)]
pub enum ChunkAction {
    /// Nothing: no chunk is waited for, or the file has no such chunk.
    Ignore(Chunk),
    /// Nothing: the chunk has arrived before.
    Skip(Chunk),
    /// Write the data of the chunk into the file at `offset`.
    Write { offset: u64, chunk: Chunk },
    /// The sender is done. Where `complete` holds, every chunk has arrived
    /// and the stored bit map is to go.
    Finish { complete: bool, chunk: Chunk },
}

/// The receiving end of one upload.
#[derive(Debug)]
pub struct Receiver {
    state: State,
    bitmap: BitMap,
    chunk_info: ChunkInfo,
}

impl Receiver {
    /// What the receiver waits for.
    pub closed spec fn state_spec(&self) -> State {
        self.state
    }

    /// Which chunks have arrived.
    pub closed spec fn arrived(&self) -> Seq<bool> {
        self.bitmap@
    }

    /// The width of the index field of a chunk.
    pub closed spec fn field_size(&self) -> u64 {
        self.chunk_info.index_field_size
    }

    /// The number of data bytes of every chunk but the last.
    pub closed spec fn chunk_size(&self) -> u64 {
        self.chunk_info.chunk_size
    }

    /// The number of data bytes that the last chunk holds where it is not
    /// full.
    pub closed spec fn last_chunk_size(&self) -> u64 {
        self.chunk_info.last_chunk_size
    }

    /// The bytes of the bit map.
    pub closed spec fn stored(&self) -> Seq<u8> {
        self.bitmap.bytes()
    }

    /// The bit map has a bit for each chunk, and a chunk that is being
    /// written is one of the file.
    pub closed spec fn wf(&self) -> bool {
        &&& self.bitmap.wf()
        &&& self.bitmap.len_spec() == self.chunk_info.num_chunks
        &&& 1 <= self.chunk_info.index_field_size <= 8
        &&& self.state matches State::WritingChunk(index) ==> index < self.chunk_info.num_chunks
    }

    /// A receiver that waits for the request.
    pub fn new() -> (r: Receiver)
        ensures
            r.wf(),
            r.state_spec() == State::WaitForAckAndCommand,
            r.arrived().len() == 0,
    {
        Receiver {
            state: State::WaitForAckAndCommand,
            bitmap: BitMap::with_length(Vec::new(), 0),
            chunk_info: ChunkInfo {
                index_field_size: 1,
                chunk_size: MTU as u64 - 1,
                num_chunks: 0,
                last_chunk_size: 0,
            },
        }
    }

    /// What the receiver waits for.
    pub fn state(&self) -> (r: State)
        ensures
            r == self.state_spec(),
    {
        self.state
    }

    /// How the file is cut into chunks.
    pub fn chunk_info(&self) -> (r: &ChunkInfo)
        ensures
            r.index_field_size == self.field_size(),
            r.chunk_size == self.chunk_size(),
            r.last_chunk_size == self.last_chunk_size(),
            self.wf() ==> r.num_chunks == self.arrived().len(),
    {
        &self.chunk_info
    }

    /// The bytes of the bit map, to be stored: bit `i` of them says whether
    /// chunk `i` has arrived.
    pub fn bitmap_bytes(&self) -> (r: &Vec<u8>)
        ensures
            r@ == self.stored(),
            self.wf() ==> r@.len() * 8 >= self.arrived().len(),
            self.arrived() == Seq::new(
                self.arrived().len(),
                |i: int| crate::bitmap::bit_at(r@, i),
            ),
    {
        let r: &Vec<u8> = self.bitmap.get_ref();
        proof {
            assert(self.arrived() =~= Seq::new(
                self.arrived().len(),
                |i: int| crate::bitmap::bit_at(r@, i),
            ));
        }
        r
    }

    /// Takes in the request to upload a file of `length` bytes, and waits
    /// for its chunks. `stored` is the bit map that was stored for the file
    /// when an earlier upload broke off, if there is one: the upload goes on
    /// from it where it has a bit for each chunk and not every bit is set.
    /// In every other case no chunk has arrived. A file with more chunks
    /// than a bit map can hold on this machine is not taken: then nothing
    /// changes, and the result says so.
    pub fn upload_request(&mut self, length: u64, stored: Option<Vec<u8>>) -> (taken: bool)
        requires
            old(self).wf(),
            length < u64::MAX,
        ensures
            final(self).wf(),
            taken == (bitmap_len(length) <= usize::MAX),
            taken ==> {
                &&& final(self).state_spec() == State::WaitForChunk
                &&& final(self).arrived() == resumed(length, stored)
                &&& final(self).field_size() == crate::codec::least_field((length + 1) as nat, 1)
                &&& final(self).chunk_size() == MTU - final(self).field_size()
                &&& final(self).last_chunk_size() as int == (length + 1) % (MTU
                    - crate::codec::least_field((length + 1) as nat, 1))
            },
            !taken ==> {
                &&& final(self).state_spec() == old(self).state_spec()
                &&& final(self).arrived() == old(self).arrived()
                &&& final(self).field_size() == old(self).field_size()
                &&& final(self).chunk_size() == old(self).chunk_size()
                &&& final(self).last_chunk_size() == old(self).last_chunk_size()
            },
    {
        let chunk_info: ChunkInfo = index_field_size(length);
        let n: u64 = chunk_info.num_chunks;
        let needed: u64 = n / 8 + if n % 8 != 0 {
            1u64
        } else {
            0u64
        };
        if needed > usize::MAX as u64 {
            return false;
        }
        let usable: Option<Vec<u8>> = match stored {
            Some(bytes) => if bytes.len() as u64 >= needed {
                Some(bytes)
            } else {
                None
            },
            None => None,
        };
        let bitmap: BitMap = match usable {
            Some(bytes) => {
                let mut bitmap = BitMap::with_length(bytes, n);
                proof {
                    assert(bitmap@ =~= Seq::new(
                        n as nat,
                        |i: int| crate::bitmap::bit_at(bytes@, i),
                    ));
                }
                if bitmap.all() {
                    bitmap.reset();
                }
                bitmap
            },
            None => {
                let fresh: Vec<u8> = vec![0u8; needed as usize];
                let mut bitmap = BitMap::with_length(fresh, n);
                bitmap.reset();
                bitmap
            },
        };
        proof {
            assert(bitmap@ =~= resumed(length, stored));
        }
        self.bitmap = bitmap;
        self.chunk_info = chunk_info;
        self.state = State::WaitForChunk;
        true
    }

    /// Takes in the chunk `chunk` and says what is to be done with it.
    pub fn chunk(&mut self, chunk: Chunk) -> (r: ChunkAction)
        requires
            old(self).wf(),
        ensures
            final(self).wf(),
            final(self).arrived() == old(self).arrived(),
            final(self).field_size() == old(self).field_size(),
            final(self).chunk_size() == old(self).chunk_size(),
            final(self).last_chunk_size() == old(self).last_chunk_size(),
            (final(self).state_spec(), r) == chunk_step(*old(self), chunk),
    {
        match self.state {
            State::WaitForChunk => {},
            _ => {
                return ChunkAction::Ignore(chunk);
            },
        }
        let n: u64 = self.chunk_info.num_chunks;
        if chunk.index == n {
            let complete: bool = self.bitmap.all();
            self.state = State::Shutdown;
            return ChunkAction::Finish { complete, chunk };
        }
        if chunk.index > n {
            return ChunkAction::Ignore(chunk);
        }
        if self.bitmap.get(chunk.index) {
            return ChunkAction::Skip(chunk);
        }
        match chunk.index.checked_mul(self.chunk_info.chunk_size) {
            Some(offset) => {
                self.state = State::WritingChunk(chunk.index);
                ChunkAction::Write { offset, chunk }
            },
            None => ChunkAction::Ignore(chunk),
        }
    }

    /// Notes that the chunk that was being written is written: it has
    /// arrived, and the next chunk is waited for. Returns whether the sender
    /// is to be told the status now: the number of chunks that are still
    /// missing is a power of two, or none is missing.
    pub fn written(&mut self) -> (status_due: bool)
        requires
            old(self).wf(),
        ensures
            final(self).wf(),
            final(self).field_size() == old(self).field_size(),
            final(self).chunk_size() == old(self).chunk_size(),
            final(self).last_chunk_size() == old(self).last_chunk_size(),
            match old(self).state_spec() {
                State::WritingChunk(index) => {
                    let missing = count_false(
                        final(self).arrived(),
                        final(self).arrived().len() as int,
                    );
                    &&& final(self).state_spec() == State::WaitForChunk
                    &&& final(self).arrived() == old(self).arrived().update(index as int, true)
                    &&& status_due == (missing == 0 || is_power_of_two(missing as u64))
                },
                _ => {
                    &&& final(self).state_spec() == old(self).state_spec()
                    &&& final(self).arrived() == old(self).arrived()
                    &&& !status_due
                },
            },
    {
        let index: u64 = match self.state {
            State::WritingChunk(index) => index,
            _ => {
                return false;
            },
        };
        self.bitmap.set(index, true);
        self.state = State::WaitForChunk;
        let missing: u64 = self.bitmap.zeroes();
        missing == 0 || missing & (missing - 1) == 0
    }

    /// The status to send: the run lengths of the bit map, as many as fit
    /// into one datagram, and whether every chunk has arrived, so that the
    /// stored bit map is to go.
    pub fn status(&self) -> (r: (Vec<u8>, bool))
        requires
            self.wf(),
        ensures
            r.0@ == encode_limited(runs(self.arrived()), MTU as int),
            r.1 == (forall|i: int| 0 <= i < self.arrived().len() ==> self.arrived()[i]),
    {
        let mut datagram: Vec<u8> = Vec::new();
        let _ = write_runlength_encoded(&self.bitmap, &mut datagram, MTU);
        proof {
            assert(datagram@ =~= encode_limited(runs(self.arrived()), MTU as int));
        }
        (datagram, self.bitmap.all())
    }
}

/// Which chunks of a file of `length` bytes have arrived at the start of an
/// upload, `stored` being the bit map of an earlier upload, if there is
/// one: those of the stored bit map, where it has a bit for each chunk and
/// not every bit is set, and none in every other case.
pub open spec fn resumed(length: u64, stored: Option<Vec<u8>>) -> Seq<bool> {
    let n = chunks_of_file(length);
    let none = Seq::new(n, |i: int| false);
    match stored {
        Some(bytes) => if bytes@.len() * 8 >= n {
            let bits = Seq::new(n, |i: int| crate::bitmap::bit_at(bytes@, i));
            if forall|i: int| 0 <= i < n ==> bits[i] {
                none
            } else {
                bits
            }
        } else {
            none
        },
        None => none,
    }
}

/// An upload that goes on forgets nothing that has arrived: where the
/// stored bit map has a bit for each chunk of the file and not every one of
/// them is set, a chunk has arrived at the start exactly where its bit is
/// set.
pub proof fn lemma_resumed_keeps(length: u64, stored: Vec<u8>)
    requires
        stored@.len() * 8 >= chunks_of_file(length),
        exists|i: int| 0 <= i < chunks_of_file(length) && !crate::bitmap::bit_at(stored@, i),
    ensures
        resumed(length, Some(stored)).len() == chunks_of_file(length),
        forall|i: int|
            0 <= i < chunks_of_file(length) ==> #[trigger] resumed(length, Some(stored))[i]
                == crate::bitmap::bit_at(stored@, i),
{
    let n = chunks_of_file(length);
    let bits = Seq::new(n, |i: int| crate::bitmap::bit_at(stored@, i));
    let k = choose|i: int| 0 <= i < chunks_of_file(length) && !crate::bitmap::bit_at(stored@, i);
    assert(!bits[k]);
}

/// The number of bytes of the bit map of a file of `length` bytes: one bit
/// for each chunk.
pub open spec fn bitmap_len(length: u64) -> nat {
    (chunks_of_file(length) + 7) / 8
}

/// The number of chunks that a file of `length` bytes is cut into.
pub open spec fn chunks_of_file(length: u64) -> nat {
    crate::codec::chunks_needed(
        (length + 1) as nat,
        (MTU - crate::codec::least_field((length + 1) as nat, 1)) as nat,
    )
}

/// What `chunk` does with a chunk: what the receiver waits for afterwards,
/// and what is to be done. A chunk is looked at only while one is waited
/// for. The chunk whose index is the number of chunks ends the upload. A
/// chunk of the file that has not arrived is to be written at the place of
/// its index; one that has arrived is skipped. Every other chunk is ignored.
pub open spec fn chunk_step(receiver: Receiver, chunk: Chunk) -> (State, ChunkAction) {
    let state = receiver.state_spec();
    let arrived = receiver.arrived();
    if state != State::WaitForChunk {
        (state, ChunkAction::Ignore(chunk))
    } else if chunk.index == arrived.len() {
        (
            State::Shutdown,
            ChunkAction::Finish {
                complete: forall|i: int| 0 <= i < arrived.len() ==> arrived[i],
                chunk,
            },
        )
    } else if chunk.index > arrived.len() {
        (state, ChunkAction::Ignore(chunk))
    } else if arrived[chunk.index as int] {
        (state, ChunkAction::Skip(chunk))
    } else if chunk.index * receiver.chunk_size() > u64::MAX {
        (state, ChunkAction::Ignore(chunk))
    } else {
        (
            State::WritingChunk(chunk.index),
            ChunkAction::Write { offset: (chunk.index * receiver.chunk_size()) as u64, chunk },
        )
    }
}

} // verus!
