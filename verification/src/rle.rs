//! Run lengths of a bit sequence and the ranges of missing chunks that they
//! stand for.
//!
//! A status lists run lengths: first a run of present chunks, which may be
//! empty, then a run of missing ones, and so on in turn. The running sums of
//! the list, taken in pairs, are the half-open ranges of missing chunk ids.
//!
//! The runs are counted by loops of this module, not by an iterator
//! adaptor, so that each count is proved against `runs`.

use crate::varint::{group_end, lemma_group_of_encoding, lemma_varint_len, parse, varint_bytes};
use vstd::prelude::*;

verus! {

/// The end of the run of entries equal to `val` that starts at `from`.
pub open spec fn run_end(bits: Seq<bool>, from: int, val: bool) -> int
    decreases bits.len() - from,
{
    if from < 0 || from >= bits.len() || bits[from] != val {
        from
    } else {
        run_end(bits, from + 1, val)
    }
}

/// The run lengths of `bits` from position `from` on, the first run being one
/// of entries equal to `val`.
pub open spec fn runs_from(bits: Seq<bool>, from: int, val: bool) -> Seq<nat>
    decreases bits.len() - from, (if 0 <= from < bits.len() && bits[from] != val {
        1int
    } else {
        0int
    }),
{
    let e = run_end(bits, from, val);
    if from < 0 || e >= bits.len() {
        seq![(e - from) as nat]
    } else {
        proof {
            lemma_run_end(bits, from, val);
        }
        seq![(e - from) as nat] + runs_from(bits, e, !val)
    }
}

/// The run lengths of `bits`, starting with a run of set bits.
pub open spec fn runs(bits: Seq<bool>) -> Seq<nat> {
    runs_from(bits, 0, true)
}

/// The run lengths of `bits` where the first bit has the chunk id `base`: the
/// ids below `base` count as present.
pub open spec fn runs_with_base(bits: Seq<bool>, base: nat) -> Seq<nat> {
    runs(bits).update(0, runs(bits)[0] + base)
}

/// The encodings of `runs` one after the other, as far as they fit into
/// `limit` bytes: the list is cut before the first number whose encoding
/// would not fit.
pub open spec fn encode_limited(runs: Seq<nat>, limit: int) -> Seq<u8>
    decreases runs.len(),
{
    if runs.len() == 0 {
        Seq::empty()
    } else if varint_bytes(runs[0]).len() > limit {
        Seq::empty()
    } else {
        varint_bytes(runs[0]) + encode_limited(
            runs.drop_first(),
            limit - varint_bytes(runs[0]).len(),
        )
    }
}

/// The encodings of all of `runs` one after the other.
pub open spec fn encode_all(runs: Seq<nat>) -> Seq<u8>
    decreases runs.len(),
{
    if runs.len() == 0 {
        Seq::empty()
    } else {
        varint_bytes(runs[0]) + encode_all(runs.drop_first())
    }
}

/// The numbers that can be read from `bytes` one after the other, starting at
/// `pos`. The list ends where the bytes end, also inside a number, or where a
/// number does not fit 64 bits.
pub open spec fn decode_runs(bytes: Seq<u8>, pos: int) -> Seq<nat>
    decreases bytes.len() - pos,
{
    match parse(bytes, pos) {
        Ok((v, next)) => if 0 <= pos < next <= bytes.len() {
            seq![v as nat] + decode_runs(bytes, next as int)
        } else {
            Seq::empty()
        },
        Err(_) => Seq::empty(),
    }
}

/// The ranges of missing ids that the run lengths `runs` stand for, the first
/// run starting at id `base`. The list ends where an id would pass `u64::MAX`,
/// and a last run without a partner is left out.
pub open spec fn ranges_of_runs(runs: Seq<nat>, base: nat) -> Seq<(nat, nat)>
    decreases runs.len(),
{
    if runs.len() < 2 {
        Seq::empty()
    } else if base + runs[0] + runs[1] > u64::MAX {
        Seq::empty()
    } else {
        seq![(base + runs[0], base + runs[0] + runs[1])] + ranges_of_runs(
            runs.skip(2),
            base + runs[0] + runs[1],
        )
    }
}

/// Whether `id` lies in one of `ranges`.
pub open spec fn covered(ranges: Seq<(nat, nat)>, id: nat) -> bool {
    exists|k: int| 0 <= k < ranges.len() && (#[trigger] ranges[k]).0 <= id < ranges[k].1
}

/// The `n` bits with ids from `base` on that a list of missing ranges stands
/// for: a bit is set where its id lies in none of them.
pub open spec fn bits_of_ranges(ranges: Seq<(nat, nat)>, base: nat, n: nat) -> Seq<bool> {
    Seq::new(n, |i: int| !covered(ranges, (base + i) as nat))
}

/// Each range ends where or before the next one starts, and none ends before
/// it starts.
pub open spec fn ascending(ranges: Seq<(nat, nat)>) -> bool {
    &&& forall|k: int| 0 <= k < ranges.len() ==> (#[trigger] ranges[k]).0 <= ranges[k].1
    &&& forall|k: int, l: int|
        0 <= k < l < ranges.len() ==> (#[trigger] ranges[k]).1 <= (#[trigger] ranges[l]).0
}

/// The entries from `from` up to the end of the run are all `val`, and the
/// run ends at the end of the bits or before an entry that differs.
pub proof fn lemma_run_end(bits: Seq<bool>, from: int, val: bool)
    requires
        0 <= from <= bits.len(),
    ensures
        from <= run_end(bits, from, val) <= bits.len(),
        forall|i: int| from <= i < run_end(bits, from, val) ==> bits[i] == val,
        run_end(bits, from, val) < bits.len() ==> bits[run_end(bits, from, val)] != val,
    decreases bits.len() - from,
{
    if from < bits.len() && bits[from] == val {
        lemma_run_end(bits, from + 1, val);
    }
}

/// A stretch of entries equal to `val` that ends at `to`, where the bits end
/// or an entry differs, is the run from `from`.
pub proof fn lemma_run_end_is(bits: Seq<bool>, from: int, to: int, val: bool)
    requires
        0 <= from <= to <= bits.len(),
        forall|i: int| from <= i < to ==> bits[i] == val,
        to < bits.len() ==> bits[to] != val,
    ensures
        run_end(bits, from, val) == to,
    decreases to - from,
{
    if from < to {
        lemma_run_end_is(bits, from + 1, to, val);
    }
}

/// The run lengths from `from` on add up to the number of bits from there.
pub proof fn lemma_runs_total(bits: Seq<bool>, from: int, val: bool)
    requires
        0 <= from <= bits.len(),
    ensures
        runs_from(bits, from, val).len() >= 1,
        total(runs_from(bits, from, val)) == bits.len() - from,
    decreases bits.len() - from, (if 0 <= from < bits.len() && bits[from] != val {
        1int
    } else {
        0int
    }),
{
    lemma_run_end(bits, from, val);
    let e = run_end(bits, from, val);
    if e < bits.len() {
        lemma_runs_total(bits, e, !val);
        let rest = runs_from(bits, e, !val);
        let all = seq![(e - from) as nat] + rest;
        assert(all.drop_first() =~= rest);
    } else {
        let all = seq![(e - from) as nat];
        assert(all.drop_first() =~= Seq::<nat>::empty());
        assert(total(all.drop_first()) == 0);
    }
}

/// The sum of a list of run lengths.
pub open spec fn total(runs: Seq<nat>) -> nat
    decreases runs.len(),
{
    if runs.len() == 0 {
        0
    } else {
        runs[0] + total(runs.drop_first())
    }
}

/// The ranges that run lengths stand for start at or after `base`, are in
/// ascending order, and end at or before `base` plus the sum of the lengths.
pub proof fn lemma_ranges_bounds(runs: Seq<nat>, base: nat)
    ensures
        ascending(ranges_of_runs(runs, base)),
        forall|k: int|
            0 <= k < ranges_of_runs(runs, base).len() ==> base <= (#[trigger] ranges_of_runs(
                runs,
                base,
            )[k]).0 && ranges_of_runs(runs, base)[k].1 <= base + total(runs)
                && ranges_of_runs(runs, base)[k].1 <= u64::MAX,
    decreases runs.len(),
{
    if runs.len() >= 2 && base + runs[0] + runs[1] <= u64::MAX {
        let next = base + runs[0] + runs[1];
        lemma_ranges_bounds(runs.skip(2), next);
        let tail = ranges_of_runs(runs.skip(2), next);
        let all = ranges_of_runs(runs, base);
        assert(all =~= seq![(base + runs[0], next)] + tail);
        assert(runs.drop_first().drop_first() =~= runs.skip(2));
        assert(total(runs) == runs[0] + runs[1] + total(runs.skip(2))) by {
            let d = runs.drop_first();
            assert(d[0] == runs[1]);
            assert(total(runs) == runs[0] + total(d));
            assert(total(d) == d[0] + total(d.drop_first()));
        }
        assert forall|k: int| 0 <= k < all.len() implies base <= (#[trigger] all[k]).0
            && all[k].1 <= base + total(runs) && all[k].1 <= u64::MAX by {
            if k > 0 {
                assert(all[k] == tail[k - 1]);
            }
        }
        assert forall|k: int, l: int| 0 <= k < l < all.len() implies (#[trigger] all[k]).1 <= (
        #[trigger] all[l]).0 by {
            assert(all[l] == tail[l - 1]);
            if k > 0 {
                assert(all[k] == tail[k - 1]);
            }
        }
        assert forall|k: int| 0 <= k < all.len() implies (#[trigger] all[k]).0 <= all[k].1 by {
            if k > 0 {
                assert(all[k] == tail[k - 1]);
            }
        }
    }
}

/// From `from` on, where a run of set bits starts, a bit is clear exactly
/// where its id lies in one of the ranges that the run lengths stand for.
pub proof fn lemma_ranges_of_bits(bits: Seq<bool>, from: int, base: nat)
    requires
        0 <= from <= bits.len(),
        base + bits.len() <= u64::MAX,
    ensures
        forall|i: int|
            from <= i < bits.len() ==> bits[i] == !covered(
                ranges_of_runs(runs_from(bits, from, true), (base + from) as nat),
                (base + i) as nat,
            ),
    decreases bits.len() - from,
{
    let rs = runs_from(bits, from, true);
    let start = (base + from) as nat;
    let ranges = ranges_of_runs(rs, start);
    lemma_run_end(bits, from, true);
    let e1 = run_end(bits, from, true);
    lemma_ranges_bounds(rs, start);
    lemma_runs_total(bits, from, true);
    if e1 >= bits.len() {
        assert(rs.len() == 1);
        assert(ranges.len() == 0);
    } else {
        lemma_run_end(bits, e1, false);
        let e2 = run_end(bits, e1, false);
        let r1 = runs_from(bits, e1, false);
        assert(rs =~= seq![(e1 - from) as nat] + r1);
        assert(e2 > e1);
        let first = ((base + e1) as nat, (base + e2) as nat);
        if e2 >= bits.len() {
            assert(r1 =~= seq![(e2 - e1) as nat]);
            assert(rs.skip(2) =~= Seq::<nat>::empty());
            assert(rs[0] == e1 - from && rs[1] == e2 - e1);
            assert(ranges_of_runs(rs.skip(2), first.1) =~= Seq::<(nat, nat)>::empty());
            assert(ranges =~= seq![first]);
            assert forall|i: int| from <= i < bits.len() implies bits[i] == !covered(
                ranges,
                (base + i) as nat,
            ) by {
                let id = (base + i) as nat;
                if i >= e1 {
                    assert(ranges[0].0 <= id < ranges[0].1);
                }
            }
        } else {
            let r2 = runs_from(bits, e2, true);
            assert(r1 =~= seq![(e2 - e1) as nat] + r2);
            assert(rs.skip(2) =~= r2);
            assert(rs[0] == e1 - from && rs[1] == e2 - e1);
            let tail = ranges_of_runs(r2, (base + e2) as nat);
            assert(ranges =~= seq![first] + tail);
            lemma_ranges_of_bits(bits, e2, base);
            lemma_ranges_bounds(r2, (base + e2) as nat);
            assert forall|i: int| from <= i < bits.len() implies bits[i] == !covered(
                ranges,
                (base + i) as nat,
            ) by {
                let id = (base + i) as nat;
                if i < e1 {
                    if covered(ranges, id) {
                        let k = choose|k: int|
                            0 <= k < ranges.len() && (#[trigger] ranges[k]).0 <= id < ranges[k].1;
                        if k > 0 {
                            assert(ranges[k] == tail[k - 1]);
                        }
                    }
                } else if i < e2 {
                    assert(ranges[0].0 <= id < ranges[0].1);
                } else {
                    if covered(tail, id) {
                        let k = choose|k: int|
                            0 <= k < tail.len() && (#[trigger] tail[k]).0 <= id < tail[k].1;
                        assert(ranges[k + 1] == tail[k]);
                    }
                    if covered(ranges, id) {
                        let k = choose|k: int|
                            0 <= k < ranges.len() && (#[trigger] ranges[k]).0 <= id < ranges[k].1;
                        assert(k > 0);
                        assert(ranges[k] == tail[k - 1]);
                    }
                }
            }
        }
    }
}

/// No run length is above the sum of all of them.
pub proof fn lemma_total_bounds(runs: Seq<nat>, k: int)
    requires
        0 <= k < runs.len(),
    ensures
        runs[k] <= total(runs),
    decreases runs.len(),
{
    if k > 0 {
        lemma_total_bounds(runs.drop_first(), k - 1);
    }
}

/// Where all the encodings fit into the limit, nothing is cut.
pub proof fn lemma_encode_limited_all(runs: Seq<nat>, limit: int)
    requires
        encode_all(runs).len() <= limit,
    ensures
        encode_limited(runs, limit) == encode_all(runs),
    decreases runs.len(),
{
    if runs.len() > 0 {
        lemma_encode_limited_all(runs.drop_first(), limit - varint_bytes(runs[0]).len());
    }
}

/// What is cut to a limit is a prefix of the whole and within the limit.
pub proof fn lemma_encode_limited_len(runs: Seq<nat>, limit: int)
    requires
        0 <= limit,
    ensures
        encode_limited(runs, limit).len() <= limit,
        encode_limited(runs, limit).len() <= encode_all(runs).len(),
    decreases runs.len(),
{
    if runs.len() > 0 && varint_bytes(runs[0]).len() <= limit {
        lemma_encode_limited_len(runs.drop_first(), limit - varint_bytes(runs[0]).len());
    }
}

/// Reading the encodings of a list of numbers that fit 64 bits gives the list
/// back, whatever bytes stand before them.
pub proof fn lemma_decode_encoded(pre: Seq<u8>, runs: Seq<nat>)
    requires
        forall|k: int| 0 <= k < runs.len() ==> runs[k] <= u64::MAX,
        pre.len() + encode_all(runs).len() <= usize::MAX,
    ensures
        decode_runs(pre + encode_all(runs), pre.len() as int) == runs,
    decreases runs.len(),
{
    let s = pre + encode_all(runs);
    let pos = pre.len() as int;
    if runs.len() == 0 {
        assert(s =~= pre);
        assert(group_end(s, pos) == s.len() + 1);
        assert(decode_runs(s, pos) =~= runs);
    } else {
        let first = varint_bytes(runs[0]);
        let rest = runs.drop_first();
        lemma_varint_len(runs[0]);
        assert(s =~= pre + first + encode_all(rest));
        lemma_group_of_encoding(pre, runs[0], encode_all(rest));
        let pre2 = pre + first;
        assert(s =~= pre2 + encode_all(rest));
        lemma_decode_encoded(pre2, rest);
        assert(parse(s, pos) == Ok::<(u64, usize), crate::varint::VarintError>(
            (runs[0] as u64, (pos + first.len()) as usize),
        ));
        assert(decode_runs(s, pos) =~= seq![runs[0]] + rest);
        assert(seq![runs[0]] + rest =~= runs);
    }
}

/// Counting the ids below `base` into the first run gives the same ranges as
/// starting the count at `base`.
pub proof fn lemma_ranges_with_base(bits: Seq<bool>, base: nat)
    ensures
        ranges_of_runs(runs_with_base(bits, base), 0) == ranges_of_runs(runs(bits), base),
{
    lemma_runs_total(bits, 0, true);
    let a = runs_with_base(bits, base);
    let b = runs(bits);
    if b.len() >= 2 {
        assert(a.skip(2) =~= b.skip(2));
    }
}

/// A status comes back as it was sent: where nothing was cut, the ranges read
/// from the encoded run lengths of a bit sequence stand for that sequence,
/// whatever id its first bit has.
pub proof fn lemma_status_round_trip(bits: Seq<bool>, base: nat, limit: int)
    requires
        base + bits.len() <= u64::MAX,
        encode_all(runs_with_base(bits, base)).len() <= limit <= usize::MAX,
    ensures
        bits_of_ranges(
            ranges_of_runs(
                decode_runs(encode_limited(runs_with_base(bits, base), limit), 0),
                0,
            ),
            base,
            bits.len(),
        ) == bits,
{
    let rs = runs_with_base(bits, base);
    lemma_runs_total(bits, 0, true);
    assert forall|k: int| 0 <= k < rs.len() implies rs[k] <= u64::MAX by {
        lemma_total_bounds(runs(bits), k);
        lemma_total_bounds(runs(bits), 0);
    }
    lemma_encode_limited_all(rs, limit);
    lemma_decode_encoded(Seq::empty(), rs);
    assert(Seq::<u8>::empty() + encode_all(rs) =~= encode_all(rs));
    lemma_ranges_with_base(bits, base);
    lemma_ranges_of_bits(bits, 0, base);
    assert(bits_of_ranges(ranges_of_runs(runs(bits), base), base, bits.len()) =~= bits);
}

} // verus!
