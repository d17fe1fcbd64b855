//! A map of bits laid over a byte buffer, least significant bit first.

use vstd::prelude::*;

verus! {

/// Bit `k` of `byte`, counted from the least significant one.
pub open spec fn bit_of(byte: u8, k: u8) -> bool {
    (byte >> k) & 1u8 == 1u8
}

/// `byte` with bit `k` set to `value`.
pub open spec fn with_bit(byte: u8, k: u8, value: bool) -> u8 {
    (byte & !(1u8 << k)) | ((if value {
        1u8
    } else {
        0u8
    }) << k)
}

/// Bit `i` of a byte sequence: bit `i % 8` of byte `i / 8`.
pub open spec fn bit_at(bytes: Seq<u8>, i: int) -> bool {
    bit_of(bytes[i / 8], (i % 8) as u8)
}

/// How many of the first `n` entries of `bits` are `false`.
pub open spec fn count_false(bits: Seq<bool>, n: int) -> nat
    decreases n,
{
    if n <= 0 {
        0
    } else {
        count_false(bits, n - 1) + if bits[n - 1] { 0nat } else { 1nat }
    }
}

proof fn lemma_test_bit(byte: u8, k: u8)
    requires
        k < 8,
    ensures
        ((byte & (1u8 << k)) == (1u8 << k)) == bit_of(byte, k),
{
    assert(((byte & (1u8 << k)) == (1u8 << k)) == ((byte >> k) & 1u8 == 1u8)) by (bit_vector)
        requires
            k < 8,
    ;
}

proof fn lemma_write_bit(byte: u8, k: u8, v: u8, j: u8)
    requires
        k < 8,
        j < 8,
        v <= 1,
    ensures
        bit_of((byte & !(1u8 << k)) | (v << k), j) == if j == k {
            v == 1
        } else {
            bit_of(byte, j)
        },
{
    assert((((byte & !(1u8 << k)) | (v << k)) >> j) & 1u8 == 1u8 <==> if j == k {
        v == 1
    } else {
        (byte >> j) & 1u8 == 1u8
    }) by (bit_vector)
        requires
            k < 8,
            j < 8,
            v <= 1,
    ;
}

proof fn lemma_toggle_bit(byte: u8, k: u8, j: u8)
    requires
        k < 8,
        j < 8,
    ensures
        bit_of(byte ^ (1u8 << k), j) == if j == k {
            !bit_of(byte, j)
        } else {
            bit_of(byte, j)
        },
{
    assert(((byte ^ (1u8 << k)) >> j) & 1u8 == 1u8 <==> if j == k {
        !((byte >> j) & 1u8 == 1u8)
    } else {
        (byte >> j) & 1u8 == 1u8
    }) by (bit_vector)
        requires
            k < 8,
            j < 8,
    ;
}

/// No bit of the byte 0 is set.
pub proof fn lemma_zero_byte(j: u8)
    requires
        j < 8,
    ensures
        !bit_of(0u8, j),
{
    assert(!((0u8 >> j) & 1u8 == 1u8)) by (bit_vector)
        requires
            j < 8,
    ;
}

/// A sequence of `num_bits` bits stored in a byte buffer.
#[derive(Debug)]
pub struct BitMap {
    buf: Vec<u8>,
    num_bits: u64,
}

impl View for BitMap {
    type V = Seq<bool>;

    /// The bits, in order of their position.
    open spec fn view(&self) -> Seq<bool> {
        Seq::new(self.len_spec(), |i: int| bit_at(self.bytes(), i))
    }
}

impl BitMap {
    /// The bytes of the underlying buffer.
    pub closed spec fn bytes(&self) -> Seq<u8> {
        self.buf@
    }

    /// The number of bits of the map.
    pub closed spec fn len_spec(&self) -> nat {
        self.num_bits as nat
    }

    /// The buffer holds every bit of the map.
    pub open spec fn wf(&self) -> bool {
        self.len_spec() <= self.bytes().len() * 8
    }

    /// Creates a map over the whole of `buf`: eight bits for each byte.
    pub fn new(buf: Vec<u8>) -> (r: BitMap)
        requires
            buf@.len() * 8 <= u64::MAX,
        ensures
            r.wf(),
            r.bytes() == buf@,
            r.len_spec() == buf@.len() * 8,
    {
        let num_bits: u64 = buf.len() as u64 * 8;
        BitMap::with_length(buf, num_bits)
    }

    /// Creates a map of the first `num_bits` bits of `buf`.
    pub fn with_length(buf: Vec<u8>, num_bits: u64) -> (r: BitMap)
        requires
            num_bits <= buf@.len() * 8,
        ensures
            r.wf(),
            r.bytes() == buf@,
            r.len_spec() == num_bits,
    {
        BitMap { buf, num_bits }
    }

    /// The bit at position `bit`.
    pub fn get(&self, bit: u64) -> (r: bool)
        requires
            self.wf(),
            bit < self.len_spec(),
        ensures
            r == self@[bit as int],
    {
        let n: usize = self.buf.len();
        assert(bit / 8 < n);
        let byte: u8 = self.buf[(bit / 8) as usize];
        let k: u8 = (bit % 8) as u8;
        let bitmask: u8 = 1u8 << k;
        proof {
            lemma_test_bit(byte, k);
        }
        (byte & bitmask) == bitmask
    }

    /// Sets the bit at position `bit` to `value` and leaves the others as they are.
    pub fn set(&mut self, bit: u64, value: bool)
        requires
            old(self).wf(),
            bit < old(self).len_spec(),
        ensures
            final(self).wf(),
            final(self).len_spec() == old(self).len_spec(),
            final(self)@ == old(self)@.update(bit as int, value),
            final(self).bytes() == old(self).bytes().update(
                bit as int / 8,
                with_bit(old(self).bytes()[bit as int / 8], (bit % 8) as u8, value),
            ),
    {
        let n: usize = self.buf.len();
        assert(bit / 8 < n);
        let idx: usize = (bit / 8) as usize;
        let k: u8 = (bit % 8) as u8;
        let byte: u8 = self.buf[idx];
        let v: u8 = if value { 1 } else { 0 };
        let bitmask: u8 = 1u8 << k;
        let updated: u8 = (byte & !bitmask) | (v << k);
        self.buf[idx] = updated;
        proof {
            let target = old(self)@.update(bit as int, value);
            assert forall|i: int| 0 <= i < self.len_spec() implies bit_at(self.bytes(), i)
                == target[i] by {
                if i / 8 == idx as int {
                    lemma_write_bit(byte, k, v, (i % 8) as u8);
                }
            }
            assert(self@ =~= old(self)@.update(bit as int, value));
        }
    }

    /// Inverts the bit at position `bit` and returns its new value.
    pub fn flip_bit(&mut self, bit: u64) -> (r: bool)
        requires
            old(self).wf(),
            bit < old(self).len_spec(),
        ensures
            final(self).wf(),
            final(self).len_spec() == old(self).len_spec(),
            final(self)@ == old(self)@.update(bit as int, !old(self)@[bit as int]),
            final(self).bytes() == old(self).bytes().update(
                bit as int / 8,
                old(self).bytes()[bit as int / 8] ^ (1u8 << ((bit % 8) as u8)),
            ),
            r == !old(self)@[bit as int],
    {
        let n: usize = self.buf.len();
        assert(bit / 8 < n);
        let idx: usize = (bit / 8) as usize;
        let k: u8 = (bit % 8) as u8;
        let byte: u8 = self.buf[idx];
        let bitmask: u8 = 1u8 << k;
        let updated: u8 = byte ^ bitmask;
        self.buf[idx] = updated;
        proof {
            let target = old(self)@.update(bit as int, !old(self)@[bit as int]);
            assert forall|i: int| 0 <= i < self.len_spec() implies bit_at(self.bytes(), i)
                == target[i] by {
                if i / 8 == idx as int {
                    lemma_toggle_bit(byte, k, (i % 8) as u8);
                }
            }
            assert(self@ =~= old(self)@.update(bit as int, !old(self)@[bit as int]));
            lemma_toggle_bit(byte, k, k);
            lemma_test_bit(updated, k);
        }
        (updated & bitmask) == bitmask
    }

    /// Clears every bit.
    pub fn reset(&mut self)
        requires
            old(self).wf(),
        ensures
            final(self).wf(),
            final(self).len_spec() == old(self).len_spec(),
            final(self)@ == Seq::new(old(self).len_spec(), |i: int| false),
            final(self).bytes() == Seq::new(old(self).bytes().len(), |i: int| 0u8),
    {
        let n: usize = self.buf.len();
        let mut i: usize = 0;
        while i < n
            invariant
                i <= n,
                n == self.buf@.len(),
                self.num_bits == old(self).num_bits,
                forall|j: int| 0 <= j < i ==> self.buf@[j] == 0u8,
            decreases n - i,
        {
            self.buf[i] = 0;
            i += 1;
        }
        proof {
            assert forall|i: int| 0 <= i < self.len_spec() implies !bit_at(self.bytes(), i) by {
                lemma_zero_byte((i % 8) as u8);
            }
            assert(self@ =~= Seq::new(old(self).len_spec(), |i: int| false));
            assert(self.bytes() =~= Seq::new(old(self).bytes().len(), |i: int| 0u8));
        }
    }

    /// The number of bits of the map.
    pub fn num_bits(&self) -> (r: u64)
        ensures
            r == self.len_spec(),
    {
        self.num_bits
    }

    /// The underlying buffer.
    pub fn get_ref(&self) -> (r: &Vec<u8>)
        ensures
            r@ == self.bytes(),
    {
        &self.buf
    }

    /// The underlying buffer, for writing. The number of bits stays as it is,
    /// so the map is well formed afterwards only if the buffer is not cut
    /// below it.
    pub fn get_mut(&mut self) -> (r: &mut Vec<u8>)
        ensures
            r@ == old(self).bytes(),
            final(self).bytes() == final(r)@,
            final(self).len_spec() == old(self).len_spec(),
    {
        &mut self.buf
    }

    /// Gives the underlying buffer back.
    pub fn into_inner(self) -> (r: Vec<u8>)
        ensures
            r@ == self.bytes(),
    {
        self.buf
    }
}

impl BitMap {
    /// Whether every bit is set.
    pub fn all(&self) -> (r: bool)
        requires
            self.wf(),
        ensures
            r == (forall|i: int| 0 <= i < self@.len() ==> self@[i]),
    {
        let mut i: u64 = 0;
        while i < self.num_bits
            invariant
                self.wf(),
                i <= self.num_bits,
                forall|j: int| 0 <= j < i ==> self@[j],
            decreases self.num_bits - i,
        {
            if !self.get(i) {
                return false;
            }
            i += 1;
        }
        true
    }

    /// Whether at least one bit is set.
    pub fn any(&self) -> (r: bool)
        requires
            self.wf(),
        ensures
            r == (exists|i: int| 0 <= i < self@.len() && self@[i]),
    {
        let mut i: u64 = 0;
        while i < self.num_bits
            invariant
                self.wf(),
                i <= self.num_bits,
                forall|j: int| 0 <= j < i ==> !self@[j],
            decreases self.num_bits - i,
        {
            if self.get(i) {
                return true;
            }
            i += 1;
        }
        false
    }

    /// The number of bits that are not set.
    pub fn zeroes(&self) -> (r: u64)
        requires
            self.wf(),
        ensures
            r == count_false(self@, self@.len() as int),
    {
        let mut i: u64 = 0;
        let mut count: u64 = 0;
        while i < self.num_bits
            invariant
                self.wf(),
                i <= self.num_bits,
                count <= i,
                count == count_false(self@, i as int),
            decreases self.num_bits - i,
        {
            if !self.get(i) {
                count += 1;
            }
            i += 1;
        }
        count
    }

    /// A cursor over all bits of the map.
    pub fn iter(&self) -> (r: Iter<'_>)
        requires
            self.wf(),
        ensures
            r.wf(),
            r.bitmap() == self,
            r.front() == 0,
            r.back() == self.len_spec(),
    {
        Iter { bitmap: self, front: 0, back: self.num_bits }
    }

    /// A cursor over the bits from the start of `range` (position 0 if it has
    /// none) up to its end (the end of the map if it has none).
    pub fn iter_range<R: RangeArgument<u64>>(&self, range: R) -> (r: Iter<'_>)
        requires
            self.wf(),
            bound_or(range.start_spec(), 0) <= bound_or(range.end_spec(), self.len_spec()),
            bound_or(range.end_spec(), self.len_spec()) <= self.len_spec(),
        ensures
            r.wf(),
            r.bitmap() == self,
            r.front() == bound_or(range.start_spec(), 0),
            r.back() == bound_or(range.end_spec(), self.len_spec()),
    {
        let front: u64 = match range.start() {
            Some(s) => s,
            None => 0,
        };
        let back: u64 = match range.end() {
            Some(e) => e,
            None => self.num_bits,
        };
        Iter { bitmap: self, front, back }
    }
}

/// The bound `b` as a position, or `default` where there is none.
pub open spec fn bound_or(b: Option<u64>, default: nat) -> nat {
    match b {
        Some(v) => v as nat,
        None => default,
    }
}

/// A range of positions of which either end may be left open.
pub trait RangeArgument<T: Copy> {
    /// The first position of the range, if it has one.
    spec fn start_spec(&self) -> Option<T>;

    /// The position behind the last one of the range, if it has one.
    spec fn end_spec(&self) -> Option<T>;

    fn start(&self) -> (r: Option<T>)
        ensures
            r == self.start_spec(),
    ;

    fn end(&self) -> (r: Option<T>)
        ensures
            r == self.end_spec(),
    ;
}

impl<T: Copy> RangeArgument<T> for core::ops::Range<T> {
    open spec fn start_spec(&self) -> Option<T> {
        Some(self.start)
    }

    open spec fn end_spec(&self) -> Option<T> {
        Some(self.end)
    }

    fn start(&self) -> (r: Option<T>) {
        Some(self.start)
    }

    fn end(&self) -> (r: Option<T>) {
        Some(self.end)
    }
}

/// A pair of bounds, of which either may be left out.
impl<T: Copy> RangeArgument<T> for (Option<T>, Option<T>) {
    open spec fn start_spec(&self) -> Option<T> {
        self.0
    }

    open spec fn end_spec(&self) -> Option<T> {
        self.1
    }

    fn start(&self) -> (r: Option<T>) {
        self.0
    }

    fn end(&self) -> (r: Option<T>) {
        self.1
    }
}

/// A cursor over a range of the bits of a map, open at both ends.
pub struct Iter<'a> {
    bitmap: &'a BitMap,
    front: u64,
    back: u64,
}

impl<'a> Iter<'a> {
    /// The map that the cursor reads.
    pub closed spec fn bitmap(&self) -> &BitMap {
        self.bitmap
    }

    /// The position of the next bit from the front.
    pub closed spec fn front(&self) -> nat {
        self.front as nat
    }

    /// The position behind the next bit from the back.
    pub closed spec fn back(&self) -> nat {
        self.back as nat
    }

    /// The range lies inside the map.
    pub open spec fn wf(&self) -> bool {
        &&& self.bitmap().wf()
        &&& self.front() <= self.back()
        &&& self.back() <= self.bitmap().len_spec()
    }

    /// The bits that are still to come, front first.
    pub open spec fn remaining(&self) -> Seq<bool> {
        self.bitmap()@.subrange(self.front() as int, self.back() as int)
    }

    /// Takes the first of the remaining bits.
    pub fn next(&mut self) -> (r: Option<bool>)
        requires
            old(self).wf(),
        ensures
            final(self).wf(),
            final(self).bitmap() == old(self).bitmap(),
            final(self).back() == old(self).back(),
            old(self).remaining().len() == 0 ==> r.is_none() && final(self).front() == old(
                self,
            ).front(),
            old(self).remaining().len() > 0 ==> r == Some(old(self).remaining()[0])
                && final(self).front() == old(self).front() + 1
                && final(self).remaining() == old(self).remaining().drop_first(),
    {
        if self.front == self.back {
            return None;
        }
        let front: u64 = self.front;
        self.front += 1;
        proof {
            assert(self.remaining() =~= old(self).remaining().drop_first());
        }
        Some(self.bitmap.get(front))
    }

    /// Takes the last of the remaining bits.
    pub fn next_back(&mut self) -> (r: Option<bool>)
        requires
            old(self).wf(),
        ensures
            final(self).wf(),
            final(self).bitmap() == old(self).bitmap(),
            final(self).front() == old(self).front(),
            old(self).remaining().len() == 0 ==> r.is_none() && final(self).back() == old(
                self,
            ).back(),
            old(self).remaining().len() > 0 ==> r == Some(old(self).remaining().last())
                && final(self).back() == old(self).back() - 1
                && final(self).remaining() == old(self).remaining().drop_last(),
    {
        if self.front == self.back {
            return None;
        }
        self.back -= 1;
        proof {
            assert(self.remaining() =~= old(self).remaining().drop_last());
        }
        Some(self.bitmap.get(self.back))
    }
}

} // verus!
