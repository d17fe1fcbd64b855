//! The sending end of an upload: the login, the chunk that goes out next,
//! and the chunk that ends the upload.

use crate::codec::{
    index_field_size, least_missing, Chunk, ChunkInfo, Command, Login, LoginView, CommandView,
    MissingRanges, UploadRequest, UploadRequestView, chunk_frame,
};
use crate::rle::{decode_runs, ranges_of_runs};
use vstd::prelude::*;

verus! {

/// Where the data of a chunk lies in the file.
#[derive(Debug, Clone, Copy, PartialEq, Eq)]
pub struct ChunkPlan {
    /// The index of the chunk.
    pub index: u64,
    /// The position of its first byte in the file.
    pub offset: u64,
    /// The number of its bytes.
    pub size: u64,
}

/// The sending end of one upload.
#[derive(Debug)]
pub struct Upload {
    chunk_info: ChunkInfo,
    missing: MissingRanges,
}

/// The datagram that opens the upload of a file of `length` bytes under
/// `path`, by the client with the token `client_token`.
pub fn login(client_token: &[u8], path: &str, length: u64) -> (r: Vec<u8>)
    ensures
        r@ == (LoginView {
            client_token: client_token@,
            command: CommandView::UploadRequest(UploadRequestView { path: path@, length }),
        }).wire(),
{
    let login = Login {
        client_token,
        command: Command::UploadRequest(UploadRequest { path, length }),
    };
    let mut datagram: Vec<u8> = Vec::new();
    login.encode(&mut datagram);
    proof {
        assert(datagram@ =~= login@.wire());
    }
    datagram
}

impl Upload {
    /// The number of chunks of the file.
    pub closed spec fn num_chunks(&self) -> u64 {
        self.chunk_info.num_chunks
    }

    /// The number of data bytes of every chunk but the last.
    pub closed spec fn chunk_size(&self) -> u64 {
        self.chunk_info.chunk_size
    }

    /// The number of data bytes of the last chunk.
    pub closed spec fn last_chunk_size(&self) -> u64 {
        self.chunk_info.last_chunk_size
    }

    /// The width of the index field of a chunk.
    pub closed spec fn field_size(&self) -> u64 {
        self.chunk_info.index_field_size
    }

    /// The ranges of chunks that the receiver misses, as of its last status.
    pub closed spec fn missing(&self) -> Seq<(nat, nat)> {
        self.missing.ranges()
    }

    /// The index from which the next chunk to send is looked for.
    pub closed spec fn position(&self) -> nat {
        self.missing.position()
    }

    /// The missing ranges are in ascending order, and the index field is at
    /// most eight bytes wide.
    pub closed spec fn wf(&self) -> bool {
        &&& self.missing.wf()
        &&& 1 <= self.chunk_info.index_field_size <= 8
    }

    /// The upload of a file of `length` bytes, of which nothing is known to
    /// be missing yet.
    pub fn new(length: u64) -> (r: Upload)
        requires
            length < u64::MAX,
        ensures
            r.wf(),
            r.missing().len() == 0,
            r.position() == 0,
            r.field_size() == crate::codec::least_field((length + 1) as nat, 1),
            r.chunk_size() == crate::codec::MTU - r.field_size(),
            r.num_chunks() == crate::receiver::chunks_of_file(length),
            r.last_chunk_size() == (length + 1) % (r.chunk_size() as int),
    {
        Upload { chunk_info: index_field_size(length), missing: MissingRanges::default() }
    }

    /// How the file is cut into chunks.
    pub fn chunk_info(&self) -> (r: &ChunkInfo)
        ensures
            r.index_field_size == self.field_size(),
            r.chunk_size == self.chunk_size(),
            r.num_chunks == self.num_chunks(),
            r.last_chunk_size == self.last_chunk_size(),
    {
        &self.chunk_info
    }

    /// Takes in the status `update` of the receiver and starts over at the
    /// first chunk. Returns whether nothing is missing.
    pub fn status(&mut self, update: &[u8]) -> (complete: bool)
        requires
            old(self).wf(),
        ensures
            final(self).wf(),
            final(self).missing() == ranges_of_runs(decode_runs(update@, 0), 0),
            final(self).position() == 0,
            complete == (final(self).missing().len() == 0),
            final(self).num_chunks() == old(self).num_chunks(),
            final(self).chunk_size() == old(self).chunk_size(),
            final(self).last_chunk_size() == old(self).last_chunk_size(),
            final(self).field_size() == old(self).field_size(),
    {
        self.missing.parse_status_update(update)
    }

    /// Where the chunk `index` lies in the file: the last chunk has the
    /// bytes that are left over, every other chunk is full.
    pub open spec fn plan(&self, index: u64) -> ChunkPlan {
        ChunkPlan {
            index,
            offset: (index * self.chunk_size()) as u64,
            size: if index == self.num_chunks() - 1 {
                self.last_chunk_size()
            } else {
                self.chunk_size()
            },
        }
    }

    /// The chunk that goes out next: the first missing chunk at or behind
    /// the position, which then moves behind it. There is none where nothing
    /// is missing from the position on, or where what is missing next is no
    /// chunk of the file.
    pub fn next_chunk(&mut self) -> (r: Option<ChunkPlan>)
        requires
            old(self).wf(),
        ensures
            final(self).wf(),
            final(self).missing() == old(self).missing(),
            final(self).num_chunks() == old(self).num_chunks(),
            final(self).chunk_size() == old(self).chunk_size(),
            final(self).last_chunk_size() == old(self).last_chunk_size(),
            final(self).field_size() == old(self).field_size(),
            exists|next: Option<u64>|
                {
                    &&& #[trigger] least_missing(old(self).missing(), old(self).position(), next)
                    &&& match next {
                        Some(index) => {
                            let sendable = index < old(self).num_chunks() && index * old(
                                self,
                            ).chunk_size() <= u64::MAX;
                            &&& final(self).position() == index + 1
                            &&& r == if sendable {
                                Some(old(self).plan(index))
                            } else {
                                None
                            }
                        },
                        None => r.is_none() && final(self).position() == old(self).position(),
                    }
                },
    {
        let next: Option<u64> = self.missing.next_chunk();
        let index: u64 = match next {
            Some(index) => index,
            None => {
                assert(least_missing(old(self).missing(), old(self).position(), next));
                return None;
            },
        };
        assert(least_missing(old(self).missing(), old(self).position(), next));
        if index >= self.chunk_info.num_chunks {
            return None;
        }
        let offset: u64 = match index.checked_mul(self.chunk_info.chunk_size) {
            Some(offset) => offset,
            None => {
                return None;
            },
        };
        let size: u64 = if index == self.chunk_info.num_chunks - 1 {
            self.chunk_info.last_chunk_size
        } else {
            self.chunk_info.chunk_size
        };
        Some(ChunkPlan { index, offset, size })
    }

    /// The datagram for the chunk of `plan`, built in the storage of `buf`,
    /// with room for its data.
    pub fn chunk(&self, buf: Vec<u8>, plan: ChunkPlan) -> (r: Chunk)
        requires
            self.wf(),
            self.field_size() + plan.size <= usize::MAX,
        ensures
            r.wf(),
            r.index == plan.index,
            r.field_size() == self.field_size(),
            r.buf@ == chunk_frame(plan.index, self.field_size() as nat, plan.size as nat),
    {
        Chunk::new(buf, plan.index, self.chunk_info.index_field_size, plan.size as usize)
    }

    /// The datagram that ends the upload, built in the storage of `buf`: a
    /// chunk without data whose index is the number of chunks.
    pub fn fin(&self, buf: Vec<u8>) -> (r: Chunk)
        requires
            self.wf(),
        ensures
            r.wf(),
            r.index == self.num_chunks(),
            r.field_size() == self.field_size(),
            r.buf@ == chunk_frame(self.num_chunks(), self.field_size() as nat, 0),
    {
        Chunk::new(buf, self.chunk_info.num_chunks, self.chunk_info.index_field_size, 0)
    }
}

} // verus!
