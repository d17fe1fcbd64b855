//! Unsigned integers in the LEB128 variable-length encoding: seven bits to a
//! byte, least significant group first, the top bit set on every byte but the
//! last.
//!
//! The encoding is written out here and not taken from a crate, so that the
//! wire format is proved against its definition.

use vstd::prelude::*;

verus! {

/// The encoding of `v`.
pub open spec fn varint_bytes(v: nat) -> Seq<u8>
    decreases v,
{
    if v < 128 {
        seq![v as u8]
    } else {
        seq![(v % 128 + 128) as u8] + varint_bytes(v / 128)
    }
}

/// The position behind the group of bytes that starts at `pos`: behind its
/// first byte with a clear top bit. Where the bytes end before such a byte
/// comes, the result lies beyond their length.
pub open spec fn group_end(bytes: Seq<u8>, pos: int) -> int
    decreases bytes.len() - pos,
{
    if pos < 0 || pos >= bytes.len() {
        bytes.len() as int + 1
    } else if bytes[pos] < 128 {
        pos + 1
    } else {
        group_end(bytes, pos + 1)
    }
}

/// The number that the bytes from `pos` up to `end` stand for.
pub open spec fn group_value(bytes: Seq<u8>, pos: int, end: int) -> nat
    decreases end - pos,
{
    if pos >= end {
        0
    } else {
        (bytes[pos] % 128) as nat + 128 * group_value(bytes, pos + 1, end)
    }
}

/// Why no integer could be read.
#[derive(Debug, Clone, Copy, PartialEq, Eq)]
pub enum VarintError {
    /// The bytes end inside the group.
    Truncated,
    /// The group stands for a number above `u64::MAX`.
    Overflow,
}

/// What reading one integer at `pos` gives: the number and the position
/// behind its group.
pub open spec fn parse(bytes: Seq<u8>, pos: int) -> Result<(u64, usize), VarintError> {
    let end = group_end(bytes, pos);
    if end > bytes.len() {
        Err(VarintError::Truncated)
    } else if group_value(bytes, pos, end) > u64::MAX {
        Err(VarintError::Overflow)
    } else {
        Ok((group_value(bytes, pos, end) as u64, end as usize))
    }
}

/// Dropping leading bytes of a group does not raise its value.
pub proof fn lemma_group_value_monotone(bytes: Seq<u8>, p: int, q: int, end: int)
    requires
        p <= q,
    ensures
        group_value(bytes, q, end) <= group_value(bytes, p, end),
    decreases q - p,
{
    if p < q {
        lemma_group_value_monotone(bytes, p + 1, q, end);
        if p < end {
            assert(group_value(bytes, p, end) == (bytes[p] % 128) as nat + 128 * group_value(
                bytes,
                p + 1,
                end,
            ));
        } else {
            assert(group_value(bytes, q, end) == 0);
        }
    }
}

/// The encoding of a number has between one and ten bytes where the number
/// fits 64 bits.
pub proof fn lemma_varint_len(v: nat)
    ensures
        1 <= varint_bytes(v).len(),
        v <= u64::MAX ==> varint_bytes(v).len() <= 10,
        v < 128 ==> varint_bytes(v).len() == 1,
{
    lemma_varint_len_bound(v, 10);
    assert(pow128(10) > u64::MAX) by {
        reveal_with_fuel(pow128, 11);
    }
}

proof fn lemma_varint_len_bound(v: nat, k: nat)
    requires
        k >= 1,
    ensures
        1 <= varint_bytes(v).len(),
        v < 128 ==> varint_bytes(v).len() == 1,
        v < pow128(k) ==> varint_bytes(v).len() <= k,
    decreases v,
{
    reveal_with_fuel(pow128, 11);
    if v >= 128 {
        if k >= 2 {
            lemma_varint_len_bound(v / 128, (k - 1) as nat);
            assert(pow128(k) == 128 * pow128((k - 1) as nat));
        } else {
            lemma_varint_len_bound(v / 128, 1);
            assert(pow128(1) == 128);
        }
    } else {
        assert(varint_bytes(v).len() == 1);
    }
}

/// 128 to the power of `k`.
pub open spec fn pow128(k: nat) -> nat
    decreases k,
{
    if k == 0 {
        1
    } else {
        128 * pow128((k - 1) as nat)
    }
}

/// Reading at the start of an encoding gives the encoded number back,
/// whatever bytes stand before and behind it.
pub proof fn lemma_group_of_encoding(pre: Seq<u8>, v: nat, post: Seq<u8>)
    ensures
        group_end(pre + varint_bytes(v) + post, pre.len() as int) == pre.len() + varint_bytes(
            v,
        ).len(),
        group_value(
            pre + varint_bytes(v) + post,
            pre.len() as int,
            (pre.len() + varint_bytes(v).len()) as int,
        ) == v,
    decreases v,
{
    let s = pre + varint_bytes(v) + post;
    let pos = pre.len() as int;
    if v < 128 {
        assert(s[pos] == v as u8);
        assert(group_value(s, pos + 1, pos + 1) == 0);
    } else {
        let b = (v % 128 + 128) as u8;
        let pre2 = pre + seq![b];
        assert(s =~= pre2 + varint_bytes(v / 128) + post);
        lemma_group_of_encoding(pre2, v / 128, post);
        assert(s[pos] == b);
        assert(b % 128 == v % 128);
        lemma_varint_len(v / 128);
    }
}

/// Reading an encoded number that fits 64 bits succeeds with that number.
pub proof fn lemma_parse_encoding(pre: Seq<u8>, v: u64, post: Seq<u8>)
    requires
        pre.len() + varint_bytes(v as nat).len() + post.len() <= usize::MAX,
    ensures
        parse(pre + varint_bytes(v as nat) + post, pre.len() as int) == Ok::<
            (u64, usize),
            VarintError,
        >((v, (pre.len() + varint_bytes(v as nat).len()) as usize)),
{
    lemma_group_of_encoding(pre, v as nat, post);
}

/// The number of bytes that the encoding of `value` takes.
pub fn len_u64_varint(value: u64) -> (r: usize)
    ensures
        r == varint_bytes(value as nat).len(),
        1 <= r <= 10,
{
    let mut v: u64 = value;
    let mut n: usize = 1;
    proof {
        lemma_varint_len(value as nat);
    }
    while v >= 128
        invariant
            1 <= n,
            n + varint_bytes(v as nat).len() == varint_bytes(value as nat).len() + 1,
            varint_bytes(value as nat).len() <= 10,
        decreases v,
    {
        proof {
            lemma_varint_len((v / 128) as nat);
        }
        v = v / 128;
        n += 1;
    }
    n
}

/// Appends the encoding of `value` to `dst`.
pub fn write_u64_varint(dst: &mut Vec<u8>, value: u64)
    ensures
        final(dst)@ == old(dst)@ + varint_bytes(value as nat),
{
    let mut v: u64 = value;
    while v >= 128
        invariant
            dst@ + varint_bytes(v as nat) == old(dst)@ + varint_bytes(value as nat),
        decreases v,
    {
        let ghost before = dst@;
        let b: u8 = (v % 128 + 128) as u8;
        dst.push(b);
        proof {
            assert(dst@ + varint_bytes((v / 128) as nat) =~= before + (seq![b] + varint_bytes(
                (v / 128) as nat,
            )));
        }
        v = v / 128;
    }
    let ghost before = dst@;
    dst.push(v as u8);
    proof {
        assert(dst@ =~= before + varint_bytes(v as nat));
    }
}

/// Reads one integer from `bytes` at `pos`.
pub fn read_u64_varint(bytes: &[u8], pos: usize) -> (r: Result<(u64, usize), VarintError>)
    requires
        pos <= bytes@.len(),
    ensures
        r == parse(bytes@, pos as int),
        r matches Ok((_, next)) ==> pos < next <= bytes@.len(),
{
    let n: usize = bytes.len();
    let mut i: usize = pos;
    while i < n && bytes[i] >= 128
        invariant
            pos <= i <= n,
            n == bytes@.len(),
            group_end(bytes@, pos as int) == group_end(bytes@, i as int),
        decreases n - i,
    {
        i += 1;
    }
    if i == n {
        return Err(VarintError::Truncated);
    }
    let end: usize = i + 1;
    let mut j: usize = end;
    let mut acc: u64 = 0;
    while j > pos
        invariant
            pos <= j <= end <= n,
            n == bytes@.len(),
            group_end(bytes@, pos as int) == end,
            acc == group_value(bytes@, j as int, end as int),
        decreases j,
    {
        j -= 1;
        let wide: u128 = (bytes[j] % 128) as u128 + 128 * (acc as u128);
        if wide > u64::MAX as u128 {
            proof {
                assert(group_value(bytes@, j as int, end as int) == wide);
                lemma_group_value_monotone(bytes@, pos as int, j as int, end as int);
            }
            return Err(VarintError::Overflow);
        }
        acc = wide as u64;
    }
    Ok((acc, end))
}

} // verus!
