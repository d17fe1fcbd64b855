//! The upload protocol's messages: login and upload request, chunks with a
//! fixed-width index, and the run-length status of a bit map.

use crate::bitmap::BitMap;
use crate::bytes::{append, zeros};
use crate::rle::{
    ascending, covered, decode_runs, encode_limited, lemma_ranges_bounds, lemma_run_end_is,
    ranges_of_runs, runs, runs_from,
};
use byteorder::ByteOrder;
use crate::varint::{
    len_u64_varint, parse, read_u64_varint, varint_bytes, write_u64_varint, VarintError,
};
use vstd::prelude::*;
use vstd::slice::slice_subrange;
use vstd::string::StringSliceAdditionalSpecFns;
use vstd::utf8::{decode_utf8, encode_utf8, valid_utf8};

verus! {

/// The largest datagram that is sent.
pub const MTU: usize = 1460;

/// Appends the run lengths of `bitmap` to `dst`, starting with a run of set
/// bits, each as a variable-length integer. At most `limit` bytes are written:
/// the list is cut before the first number that would not fit. Returns the
/// number of bytes written.
pub fn write_runlength_encoded(bitmap: &BitMap, dst: &mut Vec<u8>, limit: usize) -> (written: usize)
    requires
        bitmap.wf(),
    ensures
        final(dst)@ == old(dst)@ + encode_limited(runs(bitmap@), limit as int),
        written == encode_limited(runs(bitmap@), limit as int).len(),
        written <= limit,
{
    let n: u64 = bitmap.num_bits();
    let ghost bits = bitmap@;
    let ghost target = encode_limited(runs(bits), limit as int);
    let ghost mut out: Seq<u8> = Seq::empty();
    let mut count: u64 = 0;
    let mut prev_val: bool = true;
    let mut written: usize = 0;
    let mut i: u64 = 0;
    proof {
        assert(dst@ =~= old(dst)@ + out);
        assert(out + encode_limited(runs_from(bits, 0, true), limit as int) =~= target);
    }
    while i < n
        invariant
            bitmap.wf(),
            bits == bitmap@,
            target == encode_limited(runs(bits), limit as int),
            n == bits.len(),
            count <= i <= n,
            forall|j: int| i - count <= j < i ==> bits[j] == prev_val,
            written <= limit,
            out.len() == written,
            dst@ == old(dst)@ + out,
            target == out + encode_limited(
                runs_from(bits, i - count, prev_val),
                limit - written,
            ),
        decreases n - i,
    {
        let bit: bool = bitmap.get(i);
        if bit == prev_val {
            count += 1;
        } else {
            let ghost rest = runs_from(bits, i as int, bit);
            proof {
                lemma_run_end_is(bits, i - count, i as int, prev_val);
                let all = runs_from(bits, i - count, prev_val);
                assert(all =~= seq![count as nat] + rest);
                assert(all.drop_first() =~= rest);
            }
            let len: usize = len_u64_varint(count);
            if len > limit - written {
                proof {
                    assert(target =~= out);
                }
                return written;
            }
            write_u64_varint(dst, count);
            written += len;
            proof {
                let enc = varint_bytes(count as nat);
                assert(out + (enc + encode_limited(rest, limit - written)) =~= (out + enc)
                    + encode_limited(rest, limit - written));
                assert(dst@ =~= old(dst)@ + (out + enc));
                out = out + enc;
            }
            prev_val = bit;
            count = 1;
        }
        i += 1;
    }
    proof {
        lemma_run_end_is(bits, n - count, n as int, prev_val);
        let all = runs_from(bits, n - count, prev_val);
        assert(all =~= seq![count as nat]);
        assert(all.drop_first() =~= Seq::<nat>::empty());
    }
    let len: usize = len_u64_varint(count);
    if len > limit - written {
        proof {
            assert(target =~= out);
        }
        return written;
    }
    write_u64_varint(dst, count);
    written += len;
    proof {
        let enc = varint_bytes(count as nat);
        let all = runs_from(bits, n - count, prev_val);
        assert(encode_limited(all.drop_first(), limit - written) =~= Seq::<u8>::empty());
        assert(encode_limited(all, limit - (written - len)) =~= enc);
        assert(target =~= out + enc);
        assert(dst@ =~= old(dst)@ + (out + enc));
    }
    written
}

/// A reader of the variable-length integers of a status, one after the other.
pub struct RunlengthIter {
    data: Vec<u8>,
    pos: usize,
}

impl RunlengthIter {
    /// The reading position lies inside the data.
    pub closed spec fn wf(&self) -> bool {
        self.pos <= self.data@.len()
    }

    /// The numbers that are still to come.
    pub closed spec fn remaining(&self) -> Seq<nat> {
        decode_runs(self.data@, self.pos as int)
    }

    /// A reader at the start of `data`.
    pub fn new(data: Vec<u8>) -> (r: RunlengthIter)
        ensures
            r.wf(),
            r.remaining() == decode_runs(data@, 0),
    {
        RunlengthIter { data, pos: 0 }
    }

    /// Reads the next number. There is none where the data ends, also inside
    /// a number, or where a number does not fit 64 bits.
    pub fn next(&mut self) -> (r: Option<u64>)
        requires
            old(self).wf(),
        ensures
            final(self).wf(),
            old(self).remaining().len() == 0 ==> {
                &&& r.is_none()
                &&& final(self).remaining() == old(self).remaining()
            },
            old(self).remaining().len() > 0 ==> {
                &&& r == Some(old(self).remaining()[0] as u64)
                &&& r.unwrap() == old(self).remaining()[0]
                &&& final(self).remaining() == old(self).remaining().drop_first()
            },
    {
        match read_u64_varint(self.data.as_slice(), self.pos) {
            Ok((value, next)) => {
                proof {
                    let tail = decode_runs(self.data@, next as int);
                    assert(old(self).remaining() =~= seq![value as nat] + tail);
                    assert(old(self).remaining().drop_first() =~= tail);
                }
                self.pos = next;
                Some(value)
            },
            Err(_) => None,
        }
    }
}

/// A half-open range of chunk ids that the receiver has not got: from the
/// first field up to, and without, the second.
#[derive(Debug, PartialEq, Eq, Clone, Copy)]
pub struct MissingRange(pub u64, pub u64);

/// The missing ranges of the last status, and the sender's position in them.
#[derive(Debug)]
pub struct MissingRanges {
    missing: Vec<MissingRange>,
    cursor: u64,
}

impl Default for MissingRanges {
    /// Nothing is known to be missing, and the position is at the start.
    fn default() -> (r: MissingRanges)
        ensures
            r.ranges().len() == 0,
            r.position() == 0,
            r.wf(),
    {
        let r = MissingRanges { missing: Vec::new(), cursor: 0 };
        proof {
            assert(r.ranges() =~= Seq::empty());
        }
        r
    }
}

impl MissingRanges {
    /// The ranges as pairs of ids, in the order of the status.
    pub closed spec fn ranges(&self) -> Seq<(nat, nat)> {
        Seq::new(
            self.missing@.len(),
            |i: int| (self.missing@[i].0 as nat, self.missing@[i].1 as nat),
        )
    }

    /// The id from which the next chunk to send is looked for.
    pub closed spec fn position(&self) -> nat {
        self.cursor as nat
    }

    /// The ranges are in ascending order and do not overlap.
    pub open spec fn wf(&self) -> bool {
        ascending(self.ranges())
    }

    /// The ranges, in the order of the status.
    pub fn missing(&self) -> (r: Vec<MissingRange>)
        ensures
            r@.len() == self.ranges().len(),
            forall|i: int|
                0 <= i < r@.len() ==> (r@[i].0 as nat, r@[i].1 as nat) == self.ranges()[i],
    {
        let mut r: Vec<MissingRange> = Vec::new();
        let mut i: usize = 0;
        while i < self.missing.len()
            invariant
                i <= self.missing@.len(),
                r@.len() == i,
                forall|j: int| 0 <= j < i ==> r@[j] == self.missing@[j],
            decreases self.missing@.len() - i,
        {
            r.push(self.missing[i]);
            i += 1;
        }
        r
    }

    /// Replaces the ranges by those of the status `update` and moves the
    /// position back to the start. Returns whether nothing is missing.
    pub fn parse_status_update(&mut self, update: &[u8]) -> (r: bool)
        ensures
            final(self).ranges() == ranges_of_runs(decode_runs(update@, 0), 0),
            final(self).position() == 0,
            final(self).wf(),
            r == (final(self).ranges().len() == 0),
    {
        self.missing.clear();
        self.cursor = 0;
        let ghost target = ranges_of_runs(decode_runs(update@, 0), 0);
        let mut pos: usize = 0;
        let mut acc: u64 = 0;
        proof {
            assert(self.ranges() =~= Seq::empty());
            assert(target =~= self.ranges() + ranges_of_runs(decode_runs(update@, 0), 0));
        }
        loop
            invariant
                pos <= update@.len(),
                self.cursor == 0,
                target == self.ranges() + ranges_of_runs(
                    decode_runs(update@, pos as int),
                    acc as nat,
                ),
            ensures
                target == self.ranges(),
                self.cursor == 0,
            decreases update@.len() - pos,
        {
            let ghost rs = decode_runs(update@, pos as int);
            let (present, second) = match read_u64_varint(update, pos) {
                Ok(v) => v,
                Err(_) => {
                    proof {
                        assert(rs.len() == 0);
                        assert(target =~= self.ranges());
                    }
                    break ;
                },
            };
            let (absent, behind) = match read_u64_varint(update, second) {
                Ok(v) => v,
                Err(_) => {
                    proof {
                        assert(decode_runs(update@, second as int).len() == 0);
                        assert(rs.len() == 1);
                        assert(target =~= self.ranges());
                    }
                    break ;
                },
            };
            proof {
                let tail = decode_runs(update@, behind as int);
                assert(decode_runs(update@, second as int) =~= seq![absent as nat] + tail);
                assert(rs =~= seq![present as nat] + (seq![absent as nat] + tail));
                assert(rs.skip(2) =~= tail);
                assert(rs[0] == present && rs[1] == absent);
            }
            if present > u64::MAX - acc || absent > u64::MAX - acc - present {
                proof {
                    assert(target =~= self.ranges());
                }
                break ;
            }
            let from: u64 = acc + present;
            let to: u64 = from + absent;
            let ghost before = self.ranges();
            self.missing.push(MissingRange(from, to));
            proof {
                assert(self.ranges() =~= before + seq![(from as nat, to as nat)]);
                let tail = ranges_of_runs(decode_runs(update@, behind as int), to as nat);
                assert(before + (seq![(from as nat, to as nat)] + tail) =~= self.ranges() + tail);
            }
            acc = to;
            pos = behind;
        }
        proof {
            lemma_ranges_bounds(decode_runs(update@, 0), 0);
        }
        self.missing.is_empty()
    }

    /// The smallest missing id that is at least `from`, if there is one.
    fn first_missing(&self, from: u64) -> (r: Option<u64>)
        requires
            self.wf(),
        ensures
            least_missing(self.ranges(), from as nat, r),
    {
        let ghost ranges = self.ranges();
        let mut i: usize = 0;
        while i < self.missing.len()
            invariant
                i <= self.missing@.len(),
                ranges == self.ranges(),
                ascending(ranges),
                forall|k: int|
                    0 <= k < i ==> (#[trigger] ranges[k]).1 <= from || ranges[k].0 >= ranges[k].1,
            decreases self.missing@.len() - i,
        {
            let range: MissingRange = self.missing[i];
            if range.1 > from && range.0 < range.1 {
                let found: u64 = if range.0 > from {
                    range.0
                } else {
                    from
                };
                proof {
                    assert(ranges[i as int] == (range.0 as nat, range.1 as nat));
                    assert(ranges[i as int].0 <= found < ranges[i as int].1);
                    assert forall|x: nat| from <= x < found implies !covered(ranges, x) by {
                        if covered(ranges, x) {
                            let k = choose|k: int|
                                0 <= k < ranges.len() && (#[trigger] ranges[k]).0 <= x
                                    < ranges[k].1;
                            if k > i {
                                assert(ranges[i as int].1 <= ranges[k].0);
                            }
                        }
                    }
                }
                return Some(found);
            }
            i += 1;
        }
        proof {
            assert forall|x: nat| from <= x implies !covered(ranges, x) by {
                if covered(ranges, x) {
                    let k = choose|k: int|
                        0 <= k < ranges.len() && (#[trigger] ranges[k]).0 <= x < ranges[k].1;
                }
            }
        }
        None
    }

    /// The id to send after `cursor`: the smallest missing id above it.
    pub fn advance_cursor(&self, cursor: u64) -> (r: Option<u64>)
        requires
            self.wf(),
        ensures
            least_missing(self.ranges(), cursor as nat + 1, r),
    {
        if cursor == u64::MAX {
            proof {
                let ranges = self.ranges();
                assert forall|x: nat| cursor as nat + 1 <= x implies !covered(ranges, x) by {
                    if covered(ranges, x) {
                        let k = choose|k: int|
                            0 <= k < ranges.len() && (#[trigger] ranges[k]).0 <= x < ranges[k].1;
                        assert(ranges[k].1 == self.missing@[k].1);
                    }
                }
            }
            return None;
        }
        self.first_missing(cursor + 1)
    }

    /// The next id to send: the smallest missing id at or above the position,
    /// which then moves behind it. Where there is none, the position stays.
    pub fn next_chunk(&mut self) -> (r: Option<u64>)
        requires
            old(self).wf(),
        ensures
            final(self).ranges() == old(self).ranges(),
            least_missing(old(self).ranges(), old(self).position(), r),
            r matches Some(id) ==> final(self).position() == id + 1,
            r.is_none() ==> final(self).position() == old(self).position(),
    {
        match self.first_missing(self.cursor) {
            Some(id) => {
                proof {
                    let ranges = self.ranges();
                    let k = choose|k: int|
                        0 <= k < ranges.len() && (#[trigger] ranges[k]).0 <= id < ranges[k].1;
                    assert(ranges[k].1 == self.missing@[k].1);
                }
                self.cursor = id + 1;
                Some(id)
            },
            None => None,
        }
    }
}

/// `r` is the smallest id at or above `from` that lies in one of `ranges`,
/// or nothing where there is no such id.
pub open spec fn least_missing(ranges: Seq<(nat, nat)>, from: nat, r: Option<u64>) -> bool {
    match r {
        Some(id) => from <= id && covered(ranges, id as nat) && forall|x: nat|
            from <= x < id ==> !covered(ranges, x),
        None => forall|x: nat| from <= x ==> !covered(ranges, x),
    }
}

/// Why a message could not be read.
#[derive(Debug, Clone, Copy, PartialEq, Eq)]
pub enum DecodeError {
    /// The message ends before its last field does.
    Truncated,
    /// A number in the message does not fit 64 bits.
    Overflow,
    /// The command has a tag that is not known.
    UnknownCommand(u8),
    /// A path is not valid UTF-8.
    InvalidUtf8,
}

/// What an upload request says: the path of the file and its length in bytes.
pub struct UploadRequestView {
    pub path: Seq<char>,
    pub length: u64,
}

/// What a command says.
pub enum CommandView {
    UploadRequest(UploadRequestView),
}

/// What a login says: the client's token and its command.
pub struct LoginView {
    pub client_token: Seq<u8>,
    pub command: CommandView,
}

/// A byte string on the wire: its length as a variable-length integer, then
/// the bytes.
pub open spec fn field_wire(b: Seq<u8>) -> Seq<u8> {
    varint_bytes(b.len()) + b
}

impl UploadRequestView {
    /// The request on the wire: the path as a byte string, then the length.
    pub open spec fn wire(self) -> Seq<u8> {
        field_wire(encode_utf8(self.path)) + varint_bytes(self.length as nat)
    }
}

impl CommandView {
    /// The command on the wire: its tag, then its content.
    pub open spec fn wire(self) -> Seq<u8> {
        match self {
            CommandView::UploadRequest(req) => seq![0u8] + req.wire(),
        }
    }
}

impl LoginView {
    /// The login on the wire: the token as a byte string, then the command.
    pub open spec fn wire(self) -> Seq<u8> {
        field_wire(self.client_token) + self.command.wire()
    }
}

/// The error that stands for a failed read of a number.
pub open spec fn varint_error(e: VarintError) -> DecodeError {
    match e {
        VarintError::Truncated => DecodeError::Truncated,
        VarintError::Overflow => DecodeError::Overflow,
    }
}

/// Reading a byte string at `pos`: the bytes and the position behind them.
pub open spec fn parse_field(bytes: Seq<u8>, pos: int) -> Result<(Seq<u8>, int), DecodeError> {
    match parse(bytes, pos) {
        Err(e) => Err(varint_error(e)),
        Ok((size, next)) => if size > bytes.len() - next {
            Err(DecodeError::Truncated)
        } else {
            Ok((bytes.subrange(next as int, next + size), next + size))
        },
    }
}

/// Reading an upload request at `pos`.
pub open spec fn parse_upload_request(bytes: Seq<u8>, pos: int) -> Result<
    (UploadRequestView, int),
    DecodeError,
> {
    match parse_field(bytes, pos) {
        Err(e) => Err(e),
        Ok((path, next)) => if !valid_utf8(path) {
            Err(DecodeError::InvalidUtf8)
        } else {
            match parse(bytes, next) {
                Err(e) => Err(varint_error(e)),
                Ok((length, end)) => Ok(
                    (UploadRequestView { path: decode_utf8(path), length }, end as int),
                ),
            }
        },
    }
}

/// Reading a command at `pos`.
pub open spec fn parse_command(bytes: Seq<u8>, pos: int) -> Result<
    (CommandView, int),
    DecodeError,
> {
    if pos < 0 || pos >= bytes.len() {
        Err(DecodeError::Truncated)
    } else if bytes[pos] != 0 {
        Err(DecodeError::UnknownCommand(bytes[pos]))
    } else {
        match parse_upload_request(bytes, pos + 1) {
            Err(e) => Err(e),
            Ok((req, end)) => Ok((CommandView::UploadRequest(req), end)),
        }
    }
}

/// Reading a login from the start of `bytes`. What follows the command is
/// not looked at.
pub open spec fn parse_login(bytes: Seq<u8>) -> Result<LoginView, DecodeError> {
    match parse_field(bytes, 0) {
        Err(e) => Err(e),
        Ok((client_token, next)) => match parse_command(bytes, next) {
            Err(e) => Err(e),
            Ok((command, _)) => Ok(LoginView { client_token, command }),
        },
    }
}

/// `core::str::from_utf8`: the string slice over `bytes` where they are valid
/// UTF-8, and nothing where they are not.
#[verifier::external_body]
fn str_from_utf8<'a>(bytes: &'a [u8]) -> (r: Option<&'a str>)
    ensures
        r.is_some() == valid_utf8(bytes@),
        r matches Some(s) ==> s.spec_bytes() == bytes@,
{
    core::str::from_utf8(bytes).ok()
}

/// Reads a byte string from `src` at `pos`.
fn read_bytes<'a>(src: &'a [u8], pos: usize) -> (r: Result<(&'a [u8], usize), DecodeError>)
    requires
        pos <= src@.len(),
    ensures
        match r {
            Ok((b, next)) => parse_field(src@, pos as int) == Ok::<(Seq<u8>, int), DecodeError>(
                (b@, next as int),
            ) && next <= src@.len(),
            Err(e) => parse_field(src@, pos as int) == Err::<(Seq<u8>, int), DecodeError>(e),
        },
{
    match read_u64_varint(src, pos) {
        Err(VarintError::Truncated) => Err(DecodeError::Truncated),
        Err(VarintError::Overflow) => Err(DecodeError::Overflow),
        Ok((size, next)) => {
            if size > (src.len() - next) as u64 {
                return Err(DecodeError::Truncated);
            }
            let end: usize = next + size as usize;
            Ok((slice_subrange(src, next, end), end))
        },
    }
}

/// A client's first message: its token and what it asks for.
#[derive(Debug)]
pub struct Login<'a> {
    pub client_token: &'a [u8],
    pub command: Command<'a>,
}

/// What a client asks for.
#[derive(Debug)]
pub enum Command<'a> {
    UploadRequest(UploadRequest<'a>),
}

/// The request to upload a file of `length` bytes under `path`.
#[derive(Debug)]
pub struct UploadRequest<'a> {
    pub path: &'a str,
    pub length: u64,
}

impl<'a> View for UploadRequest<'a> {
    type V = UploadRequestView;

    open spec fn view(&self) -> UploadRequestView {
        UploadRequestView { path: self.path@, length: self.length }
    }
}

impl<'a> View for Command<'a> {
    type V = CommandView;

    open spec fn view(&self) -> CommandView {
        match self {
            Command::UploadRequest(req) => CommandView::UploadRequest(req@),
        }
    }
}

impl<'a> View for Login<'a> {
    type V = LoginView;

    open spec fn view(&self) -> LoginView {
        LoginView { client_token: self.client_token@, command: self.command@ }
    }
}

impl<'a> Login<'a> {
    /// Appends the login to `dst`.
    pub fn encode(&self, dst: &mut Vec<u8>)
        ensures
            final(dst)@ == old(dst)@ + self@.wire(),
    {
        write_u64_varint(dst, self.client_token.len() as u64);
        append(dst, self.client_token);
        let ghost mid = dst@;
        self.command.encode(dst);
        proof {
            assert(dst@ =~= old(dst)@ + self@.wire());
        }
    }

    /// Reads a login from the start of `src`.
    pub fn decode(src: &'a [u8]) -> (r: Result<Login<'a>, DecodeError>)
        ensures
            match r {
                Ok(login) => parse_login(src@) == Ok::<LoginView, DecodeError>(login@),
                Err(e) => parse_login(src@) == Err::<LoginView, DecodeError>(e),
            },
    {
        let (client_token, next) = match read_bytes(src, 0) {
            Ok(v) => v,
            Err(e) => {
                return Err(e);
            },
        };
        match Command::decode(src, next) {
            Ok((command, _)) => Ok(Login { client_token, command }),
            Err(e) => Err(e),
        }
    }
}

impl<'a> Command<'a> {
    /// Appends the command to `dst` and returns the number of bytes written.
    pub fn encode(&self, dst: &mut Vec<u8>) -> (written: usize)
        ensures
            final(dst)@ == old(dst)@ + self@.wire(),
            written == self@.wire().len(),
    {
        match self {
            Command::UploadRequest(req) => {
                let start: usize = dst.len();
                dst.push(0);
                req.encode(dst);
                proof {
                    assert(dst@ =~= old(dst)@ + self@.wire());
                }
                dst.len() - start
            },
        }
    }

    /// Reads a command from `src` at `pos` and returns it with the position
    /// behind it.
    pub fn decode(src: &'a [u8], pos: usize) -> (r: Result<(Command<'a>, usize), DecodeError>)
        requires
            pos <= src@.len(),
        ensures
            match r {
                Ok((command, end)) => parse_command(src@, pos as int) == Ok::<
                    (CommandView, int),
                    DecodeError,
                >((command@, end as int)) && end <= src@.len(),
                Err(e) => parse_command(src@, pos as int) == Err::<(CommandView, int), DecodeError>(
                    e,
                ),
            },
    {
        if pos >= src.len() {
            return Err(DecodeError::Truncated);
        }
        let tag: u8 = src[pos];
        if tag != 0 {
            return Err(DecodeError::UnknownCommand(tag));
        }
        match UploadRequest::decode(src, pos + 1) {
            Ok((req, end)) => Ok((Command::UploadRequest(req), end)),
            Err(e) => Err(e),
        }
    }
}

impl<'a> UploadRequest<'a> {
    /// Appends the request to `dst` and returns the number of bytes written.
    pub fn encode(&self, dst: &mut Vec<u8>) -> (written: usize)
        ensures
            final(dst)@ == old(dst)@ + self@.wire(),
            written == self@.wire().len(),
    {
        let start: usize = dst.len();
        let path: &[u8] = self.path.as_bytes();
        write_u64_varint(dst, path.len() as u64);
        append(dst, path);
        write_u64_varint(dst, self.length);
        proof {
            assert(dst@ =~= old(dst)@ + self@.wire());
        }
        dst.len() - start
    }

    /// Reads a request from `src` at `pos` and returns it with the position
    /// behind it.
    pub fn decode(src: &'a [u8], pos: usize) -> (r: Result<(UploadRequest<'a>, usize), DecodeError>)
        requires
            pos <= src@.len(),
        ensures
            match r {
                Ok((req, end)) => parse_upload_request(src@, pos as int) == Ok::<
                    (UploadRequestView, int),
                    DecodeError,
                >((req@, end as int)) && end <= src@.len(),
                Err(e) => parse_upload_request(src@, pos as int) == Err::<
                    (UploadRequestView, int),
                    DecodeError,
                >(e),
            },
    {
        let (raw, next) = match read_bytes(src, pos) {
            Ok(v) => v,
            Err(e) => {
                return Err(e);
            },
        };
        let path: &str = match str_from_utf8(raw) {
            Some(p) => p,
            None => {
                return Err(DecodeError::InvalidUtf8);
            },
        };
        proof {
            vstd::utf8::encode_utf8_decode_utf8(path@);
        }
        match read_u64_varint(src, next) {
            Ok((length, end)) => Ok((UploadRequest { path, length }, end)),
            Err(VarintError::Truncated) => Err(DecodeError::Truncated),
            Err(VarintError::Overflow) => Err(DecodeError::Overflow),
        }
    }
}

/// A login that is written out and read again is the same login.
pub proof fn lemma_login_round_trip(login: LoginView)
    requires
        login.wire().len() <= usize::MAX,
    ensures
        parse_login(login.wire()) == Ok::<LoginView, DecodeError>(login),
{
    let CommandView::UploadRequest(req) = login.command;
    let token = login.client_token;
    let path = encode_utf8(req.path);
    let s = login.wire();
    let none = Seq::<u8>::empty();
    let after_token = token + login.command.wire();
    assert(s =~= none + varint_bytes(token.len()) + after_token);
    crate::varint::lemma_group_of_encoding(none, token.len(), after_token);
    crate::varint::lemma_varint_len(token.len());
    let token_at = varint_bytes(token.len()).len() as int;
    assert(s.subrange(token_at, token_at + token.len()) =~= token);
    let command_at = token_at + token.len();
    assert(s[command_at] == 0u8);
    let before_path = varint_bytes(token.len()) + token + seq![0u8];
    let after_path = path + varint_bytes(req.length as nat);
    assert(s =~= before_path + varint_bytes(path.len()) + after_path);
    crate::varint::lemma_group_of_encoding(before_path, path.len(), after_path);
    crate::varint::lemma_varint_len(path.len());
    let path_at = command_at + 1 + varint_bytes(path.len()).len();
    assert(s.subrange(path_at, path_at + path.len()) =~= path);
    vstd::utf8::encode_utf8_valid_utf8(req.path);
    vstd::utf8::encode_utf8_decode_utf8(req.path);
    let before_length = before_path + varint_bytes(path.len()) + path;
    assert(s =~= before_length + varint_bytes(req.length as nat) + none);
    crate::varint::lemma_group_of_encoding(before_length, req.length as nat, none);
    crate::varint::lemma_varint_len(req.length as nat);
}

/// The `n` low bytes of `v`, least significant first.
pub open spec fn le_bytes(v: nat, n: nat) -> Seq<u8>
    decreases n,
{
    if n == 0 {
        Seq::empty()
    } else {
        seq![(v % 256) as u8] + le_bytes(v / 256, (n - 1) as nat)
    }
}

/// The number that `bytes` stand for, least significant byte first.
pub open spec fn le_value(bytes: Seq<u8>) -> nat
    decreases bytes.len(),
{
    if bytes.len() == 0 {
        0
    } else {
        bytes[0] as nat + 256 * le_value(bytes.drop_first())
    }
}

/// `byteorder::ByteOrder::write_u64` of `LittleEndian`, on a buffer of eight
/// bytes: the eight bytes of `v`, least significant first.
#[verifier::external_body]
fn u64_le_bytes(v: u64) -> (r: [u8; 8])
    ensures
        r@ == le_bytes(v as nat, 8),
{
    let mut buf = [0u8; 8];
    byteorder::LittleEndian::write_u64(&mut buf, v);
    buf
}

/// `byteorder::ByteOrder::read_u64` of `LittleEndian`: the number that eight
/// bytes stand for, least significant first.
#[verifier::external_body]
fn u64_from_le(buf: &[u8; 8]) -> (r: u64)
    ensures
        r == le_value(buf@),
{
    byteorder::LittleEndian::read_u64(buf)
}

/// Zero bytes at the end do not change the number that bytes stand for.
pub proof fn lemma_le_value_padded(bytes: Seq<u8>, k: nat)
    ensures
        le_value(bytes + zeros(k)) == le_value(bytes),
    decreases bytes.len() + k,
{
    let padded = bytes + zeros(k);
    if bytes.len() > 0 {
        assert(padded.drop_first() =~= bytes.drop_first() + zeros(k));
        lemma_le_value_padded(bytes.drop_first(), k);
    } else if k > 0 {
        assert(padded.drop_first() =~= Seq::<u8>::empty() + zeros((k - 1) as nat));
        lemma_le_value_padded(Seq::empty(), (k - 1) as nat);
        assert(le_value(Seq::<u8>::empty()) == 0);
    } else {
        assert(padded =~= bytes);
    }
}

/// The buffer of a fresh chunk: the first `field_size` bytes of the index,
/// least significant first, then `data_size` bytes. The data bytes are zero,
/// but for those that the eight bytes of the index reach into.
pub open spec fn chunk_frame(index: u64, field_size: nat, data_size: nat) -> Seq<u8> {
    Seq::new(
        field_size + data_size,
        |i: int|
            if i < 8 {
                le_bytes(index as nat, 8)[i]
            } else {
                0u8
            },
    )
}

/// A datagram that carries a piece of a file: the index of the piece in a
/// field of fixed width, then the data.
#[derive(Debug)]
pub struct Chunk {
    /// The width of the index field in bytes.
    pub index_field_size: u64,
    /// The index of the piece.
    pub index: u64,
    /// The datagram: the index field, then the data.
    pub buf: Vec<u8>,
}

impl Chunk {
    /// The width of the index field in bytes.
    pub open spec fn field_size(&self) -> nat {
        self.index_field_size as nat
    }

    /// The index field lies inside the buffer.
    pub open spec fn wf(&self) -> bool {
        self.field_size() <= self.buf@.len()
    }

    /// A chunk with the index `index` and room for `data_size` bytes of data,
    /// built in the storage of `buf`, whose content is dropped.
    pub fn new(buf: Vec<u8>, index: u64, index_field_size: u64, data_size: usize) -> (r: Chunk)
        requires
            0 < index_field_size <= 8,
            index_field_size + data_size <= usize::MAX,
        ensures
            r.wf(),
            r.index == index,
            r.field_size() == index_field_size,
            r.buf@ == chunk_frame(index, index_field_size as nat, data_size as nat),
    {
        let mut buf = buf;
        buf.clear();
        let le: [u8; 8] = u64_le_bytes(index);
        append(&mut buf, le.as_slice());
        buf.resize(index_field_size as usize + data_size, 0);
        proof {
            assert(buf@ =~= chunk_frame(index, index_field_size as nat, data_size as nat));
        }
        Chunk { index_field_size, index, buf }
    }

    /// The chunk that the datagram `src` holds, its index read from the first
    /// `index_field_size` bytes.
    pub fn decode(src: Vec<u8>, index_field_size: u64) -> (r: Chunk)
        requires
            0 < index_field_size <= 8,
            index_field_size <= src@.len(),
        ensures
            r.wf(),
            r.buf@ == src@,
            r.field_size() == index_field_size,
            r.index == le_value(src@.subrange(0, index_field_size as int)),
    {
        let mut buf: [u8; 8] = [0u8; 8];
        let n: usize = index_field_size as usize;
        let mut i: usize = 0;
        while i < n
            invariant
                i <= n <= 8,
                n <= src@.len(),
                forall|j: int| 0 <= j < i ==> buf@[j] == src@[j],
                forall|j: int| i <= j < 8 ==> buf@[j] == 0u8,
            decreases n - i,
        {
            buf[i] = src[i];
            i += 1;
        }
        let index: u64 = u64_from_le(&buf);
        proof {
            let head = src@.subrange(0, n as int);
            assert(buf@ =~= head + zeros((8 - n) as nat));
            lemma_le_value_padded(head, (8 - n) as nat);
        }
        Chunk { index_field_size, index, buf: src }
    }

    /// Gives the datagram back.
    pub fn into_vec(self) -> (r: Vec<u8>)
        ensures
            r@ == self.buf@,
    {
        self.buf
    }

    /// The data of the chunk: what follows the index field.
    pub fn as_ref(&self) -> (r: &[u8])
        requires
            self.wf(),
        ensures
            r@ == self.buf@.subrange(self.field_size() as int, self.buf@.len() as int),
    {
        slice_subrange(self.buf.as_slice(), self.index_field_size as usize, self.buf.len())
    }

    /// Overwrites the data of the chunk with `data`, which has its length.
    pub fn fill(&mut self, data: &[u8])
        requires
            old(self).wf(),
            data@.len() == old(self).buf@.len() - old(self).field_size(),
        ensures
            final(self).wf(),
            final(self).index == old(self).index,
            final(self).field_size() == old(self).field_size(),
            final(self).buf@ == old(self).buf@.subrange(0, old(self).field_size() as int) + data@,
    {
        self.buf.truncate(self.index_field_size as usize);
        append(&mut self.buf, data);
    }
}

/// How a file is cut into chunks.
#[derive(Debug)]
pub struct ChunkInfo {
    /// The width of the index field in bytes.
    pub index_field_size: u64,
    /// The number of data bytes of every chunk but the last.
    pub chunk_size: u64,
    /// The number of chunks.
    pub num_chunks: u64,
    /// The number of bytes that the last chunk holds where it is not full.
    pub last_chunk_size: u64,
}

/// 256 to the power of `k`.
pub open spec fn pow256(k: nat) -> nat
    decreases k,
{
    if k == 0 {
        1
    } else {
        256 * pow256((k - 1) as nat)
    }
}

/// The number of chunks of `chunk_size` bytes that `total` bytes take.
pub open spec fn chunks_needed(total: nat, chunk_size: nat) -> nat {
    if chunk_size == 0 {
        0
    } else if total % chunk_size != 0 {
        total / chunk_size + 1
    } else {
        total / chunk_size
    }
}

/// Whether an index field of `field_size` bytes can number the chunks of
/// `total` bytes, each datagram holding the field and the data.
pub open spec fn field_fits(total: nat, field_size: nat) -> bool {
    chunks_needed(total, (MTU - field_size) as nat) <= pow256(field_size)
}

/// The narrowest index field, from `from` bytes on and at most seven bytes
/// wide, that can number the chunks of `total` bytes.
pub open spec fn least_field(total: nat, from: nat) -> nat
    decreases 8 - from,
{
    if from >= 7 || field_fits(total, from) {
        from
    } else {
        least_field(total, from + 1)
    }
}

/// The narrowest field is the one that fits where no narrower one does.
pub proof fn lemma_least_field(total: nat, from: nat, size: nat)
    requires
        from <= size <= 7,
        field_fits(total, size),
        forall|s: nat| from <= s < size ==> !#[trigger] field_fits(total, s),
    ensures
        least_field(total, from) == size,
    decreases size - from,
{
    if from < size {
        lemma_least_field(total, from + 1, size);
    }
}

proof fn lemma_chunk_count_bound(length: u64, chunk_size: u64)
    requires
        1453 <= chunk_size,
    ensures
        length / chunk_size < 0xff_ffff_ffff_ffff,
{
    vstd::arithmetic::div_mod::lemma_div_is_ordered_by_denominator(
        length as int,
        1453,
        chunk_size as int,
    );
    assert(length as int / 1453 < 0xff_ffff_ffff_ffff);
}

/// How a file of `length` bytes is cut into chunks: with the narrowest index
/// field that can number them. One byte more than the length is provided for.
pub fn index_field_size(length: u64) -> (r: ChunkInfo)
    requires
        length < u64::MAX,
    ensures
        1 <= r.index_field_size <= 7,
        r.index_field_size == least_field((length + 1) as nat, 1),
        field_fits((length + 1) as nat, r.index_field_size as nat),
        forall|s: nat|
            1 <= s < r.index_field_size ==> !#[trigger] field_fits((length + 1) as nat, s),
        r.chunk_size == MTU - r.index_field_size,
        r.num_chunks == chunks_needed((length + 1) as nat, r.chunk_size as nat),
        r.last_chunk_size == (length + 1) % (r.chunk_size as int),
{
    let length: u64 = length + 1;
    let mut index_field_size: u64 = 1;
    let mut chunk_size: u64 = MTU as u64 - index_field_size;
    proof {
        lemma_chunk_count_bound(length, chunk_size);
    }
    let mut num_chunks: u64 = length / chunk_size + if length % chunk_size != 0 {
        1u64
    } else {
        0u64
    };
    loop
        invariant
            1 <= index_field_size <= 7,
            chunk_size == MTU - index_field_size,
            num_chunks == chunks_needed(length as nat, chunk_size as nat),
            num_chunks <= 0xff_ffff_ffff_ffff,
            forall|s: nat| 1 <= s < index_field_size ==> !#[trigger] field_fits(length as nat, s),
        ensures
            field_fits(length as nat, index_field_size as nat),
        decreases 8 - index_field_size,
    {
        let s: u64 = index_field_size;
        let cap: u64 = 1u64 << (s * 8);
        proof {
            assert(1 <= s <= 7 ==> (1u64 << (s * 8)) == if s == 1 {
                0x100u64
            } else if s == 2 {
                0x1_0000u64
            } else if s == 3 {
                0x100_0000u64
            } else if s == 4 {
                0x1_0000_0000u64
            } else if s == 5 {
                0x100_0000_0000u64
            } else if s == 6 {
                0x1_0000_0000_0000u64
            } else {
                0x100_0000_0000_0000u64
            }) by (bit_vector);
            reveal_with_fuel(pow256, 8);
            assert(cap == pow256(s as nat));
        }
        if num_chunks <= cap {
            break ;
        }
        assert(s < 7);
        index_field_size += 1;
        chunk_size = MTU as u64 - index_field_size;
        proof {
            lemma_chunk_count_bound(length, chunk_size);
        }
        num_chunks = length / chunk_size + if length % chunk_size != 0 {
            1u64
        } else {
            0u64
        };
    }
    proof {
        lemma_least_field(length as nat, 1, index_field_size as nat);
    }
    ChunkInfo { index_field_size, chunk_size, num_chunks, last_chunk_size: length % chunk_size }
}

} // verus!
