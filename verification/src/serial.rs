//! Self-describing byte serialization of the accumulators.
//!
//! Every stream starts with a version byte and an accumulator kind tag
//! (naive 0, cbf 1, iblt 2, power-sum 3), followed by the kind's fields in
//! little-endian fixed width, with packed counters written as their 32-bit
//! backing blocks.  Each `to_bytes` states the exact bytes produced and
//! each `from_bytes` accepts exactly the streams some state produces, so
//! the round trip restores an equal accumulator.

use vstd::prelude::*;

use crate::cbf::CountingBloomFilter;
use crate::cbf_acc::CBFAccumulator;
use crate::digest::Digest;
use crate::field::LARGE_PRIME;
use crate::iblt::InvBloomLookupTable;
use crate::iblt_acc::IBLTAccumulator;
use crate::naive::NaiveAccumulator;
use crate::power_sum::PowerSumAccumulator;
use crate::valuevec::{mask_of, ValueVec};

verus! {

use vstd::bytes::{
    spec_u32_from_le_bytes, spec_u32_to_le_bytes, spec_u64_from_le_bytes, spec_u64_to_le_bytes,
    u32_from_le_bytes, u32_to_le_bytes, u64_from_le_bytes, u64_to_le_bytes,
};

/// The format version this crate writes.
pub const FORMAT_VERSION: u8 = 1;

/// Kind tag of the naive accumulator.
pub const TAG_NAIVE: u8 = 0;

/// Kind tag of the CBF accumulator.
pub const TAG_CBF: u8 = 1;

/// Kind tag of the IBLT accumulator.
pub const TAG_IBLT: u8 = 2;

/// Kind tag of the power-sum accumulator.
pub const TAG_POWER_SUM: u8 = 3;

/// The serialized digest fields: seed, count, state.
pub open spec fn ser_digest(seed: u64, count: u64, state: u64) -> Seq<u8> {
    spec_u64_to_le_bytes(seed) + spec_u64_to_le_bytes(count) + spec_u64_to_le_bytes(state)
}

/// The serialized naive accumulator.
pub open spec fn ser_naive(seed: u64, count: u64, state: u64) -> Seq<u8> {
    seq![FORMAT_VERSION, TAG_NAIVE] + ser_digest(seed, count, state)
}

/// The serialized power-sum accumulator.
pub open spec fn ser_power_sum(seed: u64, count: u64, state: u64, sums: Seq<i64>) -> Seq<u8> {
    seq![FORMAT_VERSION, TAG_POWER_SUM] + ser_digest(seed, count, state) + spec_u64_to_le_bytes(
        sums.len() as u64,
    ) + spec_u64_to_le_bytes(LARGE_PRIME as u64) + ser_u64s(Seq::new(sums.len(), |i: int| sums[i] as u64))
}

/// A sequence of 64-bit values in little-endian order.
pub open spec fn ser_u64s(s: Seq<u64>) -> Seq<u8>
    decreases s.len(),
{
    if s.len() == 0 {
        Seq::empty()
    } else {
        ser_u64s(s.drop_last()) + spec_u64_to_le_bytes(s.last())
    }
}

/// A sequence of 32-bit values in little-endian order.
pub open spec fn ser_u32s(s: Seq<u32>) -> Seq<u8>
    decreases s.len(),
{
    if s.len() == 0 {
        Seq::empty()
    } else {
        ser_u32s(s.drop_last()) + spec_u32_to_le_bytes(s.last())
    }
}

/// Length and random access of `ser_u64s`.
pub proof fn lemma_ser_u64s_index(s: Seq<u64>, j: int)
    ensures
        ser_u64s(s).len() == 8 * s.len(),
        0 <= j < s.len() ==> ser_u64s(s).subrange(8 * j, 8 * j + 8) == spec_u64_to_le_bytes(s[j]),
    decreases s.len(),
{
    vstd::bytes::lemma_auto_spec_u64_to_from_le_bytes();
    if s.len() == 0 {
    } else {
        lemma_ser_u64s_index(s.drop_last(), j);
        if 0 <= j < s.len() {
            if j == s.len() - 1 {
                assert(ser_u64s(s).subrange(8 * j, 8 * j + 8) =~= spec_u64_to_le_bytes(s[j]));
            } else {
                assert(ser_u64s(s).subrange(8 * j, 8 * j + 8) =~= ser_u64s(s.drop_last()).subrange(
                    8 * j,
                    8 * j + 8,
                ));
            }
        }
    }
}

/// Length and random access of `ser_u32s`.
pub proof fn lemma_ser_u32s_index(s: Seq<u32>, j: int)
    ensures
        ser_u32s(s).len() == 4 * s.len(),
        0 <= j < s.len() ==> ser_u32s(s).subrange(4 * j, 4 * j + 4) == spec_u32_to_le_bytes(s[j]),
    decreases s.len(),
{
    vstd::bytes::lemma_auto_spec_u32_to_from_le_bytes();
    if s.len() == 0 {
    } else {
        lemma_ser_u32s_index(s.drop_last(), j);
        if 0 <= j < s.len() {
            if j == s.len() - 1 {
                assert(ser_u32s(s).subrange(4 * j, 4 * j + 4) =~= spec_u32_to_le_bytes(s[j]));
            } else {
                assert(ser_u32s(s).subrange(4 * j, 4 * j + 4) =~= ser_u32s(s.drop_last()).subrange(
                    4 * j,
                    4 * j + 4,
                ));
            }
        }
    }
}

/// The serialized CBF accumulator.
pub open spec fn ser_cbf(
    seed: u64,
    count: u64,
    state: u64,
    w: u64,
    ne: u64,
    k: u64,
    s1: u64,
    s2: u64,
    blocks: Seq<u32>,
) -> Seq<u8> {
    seq![FORMAT_VERSION, TAG_CBF] + ser_digest(seed, count, state) + spec_u64_to_le_bytes(w)
        + spec_u64_to_le_bytes(ne) + spec_u64_to_le_bytes(k) + spec_u64_to_le_bytes(s1)
        + spec_u64_to_le_bytes(s2) + ser_u32s(blocks)
}

/// The serialized IBLT accumulator.
pub open spec fn ser_iblt(
    seed: u64,
    count: u64,
    state: u64,
    w: u64,
    ne: u64,
    k: u64,
    s1: u64,
    s2: u64,
    tseed: u64,
    blocks: Seq<u32>,
    data: Seq<u32>,
) -> Seq<u8> {
    seq![FORMAT_VERSION, TAG_IBLT] + ser_digest(seed, count, state) + spec_u64_to_le_bytes(w)
        + spec_u64_to_le_bytes(ne) + spec_u64_to_le_bytes(k) + spec_u64_to_le_bytes(s1)
        + spec_u64_to_le_bytes(s2) + spec_u64_to_le_bytes(tseed) + ser_u32s(blocks) + ser_u32s(
        data,
    )
}

/// Bytes that read back the entries of `vals` at stride 4 from `off` are
/// that region's serialization.
proof fn lemma_bytes_are_u32s(bytes: Seq<u8>, off: int, vals: Seq<u32>)
    requires
        off >= 0,
        bytes.len() >= off + 4 * vals.len(),
        forall|u: int|
            0 <= u < vals.len() ==> #[trigger] vals[u] == spec_u32_from_le_bytes(
                bytes.subrange(off + 4 * u, off + 4 * u + 4),
            ),
    ensures
        bytes.subrange(off, off + 4 * vals.len()) == ser_u32s(vals),
{
    vstd::bytes::lemma_auto_spec_u32_to_from_le_bytes();
    lemma_ser_u32s_index(vals, 0);
    assert(bytes.subrange(off, off + 4 * vals.len()) =~= ser_u32s(vals)) by {
        assert forall|b: int| 0 <= b < 4 * vals.len() implies ser_u32s(vals)[b] == bytes.subrange(
            off,
            off + 4 * vals.len(),
        )[b] by {
            let u = b / 4;
            let o = b % 4;
            vstd::arithmetic::div_mod::lemma_fundamental_div_mod(b, 4);
            lemma_ser_u32s_index(vals, u);
            assert(0 <= u < vals.len()) by (nonlinear_arith)
                requires
                    b == 4 * u + o,
                    0 <= o < 4,
                    0 <= b < 4 * vals.len(),
            ;
            assert(ser_u32s(vals).subrange(4 * u, 4 * u + 4)[o] == ser_u32s(vals)[b]);
            assert(spec_u32_to_le_bytes(vals[u]) =~= bytes.subrange(
                off + 4 * u,
                off + 4 * u + 4,
            )) by {
                assert(vals[u] == spec_u32_from_le_bytes(
                    bytes.subrange(off + 4 * u, off + 4 * u + 4),
                ));
                assert(spec_u32_to_le_bytes(spec_u32_from_le_bytes(
                    bytes.subrange(off + 4 * u, off + 4 * u + 4),
                )) =~= bytes.subrange(off + 4 * u, off + 4 * u + 4));
            };
            assert(bytes.subrange(off + 4 * u, off + 4 * u + 4)[o] == bytes.subrange(
                off,
                off + 4 * vals.len(),
            )[b]);
        }
    };
}

/// Appends the 32-bit values of `vals` in order.
fn push_u32s(out: &mut Vec<u8>, vals: &Vec<u32>)
    ensures
        final(out)@ == old(out)@ + ser_u32s(vals@),
{
    let ghost head = out@;
    let mut j: usize = 0;
    while j < vals.len()
        invariant
            j <= vals@.len(),
            out@ == head + ser_u32s(vals@.take(j as int)),
        decreases vals@.len() - j,
    {
        push_u32(out, vals[j]);
        proof {
            assert(vals@.take(j as int + 1).drop_last() =~= vals@.take(j as int));
            assert(vals@.take(j as int + 1).last() == vals@[j as int]);
            assert(out@ =~= head + ser_u32s(vals@.take(j as int + 1)));
        }
        j = j + 1;
    }
    proof {
        assert(vals@.take(vals@.len() as int) =~= vals@);
    }
}

/// Reads `count` 32-bit values at stride 4 from `pos`.
fn read_u32s(bytes: &Vec<u8>, pos: usize, count: usize) -> (r: Vec<u32>)
    requires
        pos + 4 * count <= bytes@.len(),
    ensures
        r@.len() == count,
        forall|u: int|
            0 <= u < count ==> #[trigger] r@[u] == spec_u32_from_le_bytes(
                bytes@.subrange(pos + 4 * u, pos + 4 * u + 4),
            ),
{
    let blen = bytes.len();
    let mut r: Vec<u32> = Vec::new();
    let mut j: usize = 0;
    while j < count
        invariant
            pos + 4 * count <= bytes@.len(),
            blen == bytes@.len(),
            j <= count,
            r@.len() == j,
            forall|u: int|
                0 <= u < j ==> #[trigger] r@[u] == spec_u32_from_le_bytes(
                    bytes@.subrange(pos + 4 * u, pos + 4 * u + 4),
                ),
        decreases count - j,
    {
        proof {
            assert(4 * (j as int) + 4 <= 4 * (count as int)) by (nonlinear_arith)
                requires
                    j < count,
            ;
        }
        let v = read_u32(bytes, pos + 4 * j);
        r.push(v);
        j = j + 1;
    }
    r
}

/// Appends a 64-bit value in little-endian order.
pub fn push_u64(out: &mut Vec<u8>, v: u64)
    ensures
        final(out)@ == old(out)@ + spec_u64_to_le_bytes(v),
{
    let b = u64_to_le_bytes(v);
    let ghost start = out@;
    let mut i: usize = 0;
    while i < b.len()
        invariant
            b@.len() == 8,
            b@ == spec_u64_to_le_bytes(v),
            i <= 8,
            out@ == start + b@.take(i as int),
        decreases b@.len() - i,
    {
        proof {
            assert(b@.take(i as int + 1) =~= b@.take(i as int).push(b@[i as int]));
            assert(start + b@.take(i as int + 1) =~= (start + b@.take(i as int)).push(
                b@[i as int],
            ));
        }
        out.push(b[i]);
        i = i + 1;
    }
    proof {
        assert(b@.take(8) =~= b@);
    }
}

/// Appends a 32-bit value in little-endian order.
pub fn push_u32(out: &mut Vec<u8>, v: u32)
    ensures
        final(out)@ == old(out)@ + spec_u32_to_le_bytes(v),
{
    let b = u32_to_le_bytes(v);
    let ghost start = out@;
    let mut i: usize = 0;
    while i < b.len()
        invariant
            b@.len() == 4,
            b@ == spec_u32_to_le_bytes(v),
            i <= 4,
            out@ == start + b@.take(i as int),
        decreases b@.len() - i,
    {
        proof {
            assert(b@.take(i as int + 1) =~= b@.take(i as int).push(b@[i as int]));
            assert(start + b@.take(i as int + 1) =~= (start + b@.take(i as int)).push(
                b@[i as int],
            ));
        }
        out.push(b[i]);
        i = i + 1;
    }
    proof {
        assert(b@.take(4) =~= b@);
    }
}

/// Reads a 64-bit little-endian value at byte offset `pos`.
pub fn read_u64(bytes: &Vec<u8>, pos: usize) -> (r: u64)
    requires
        pos + 8 <= bytes@.len(),
    ensures
        r == spec_u64_from_le_bytes(bytes@.subrange(pos as int, pos as int + 8)),
{
    let blen = bytes.len();
    let mut buf: Vec<u8> = Vec::new();
    let mut i: usize = 0;
    while i < 8
        invariant
            pos + 8 <= bytes@.len(),
            blen == bytes@.len(),
            i <= 8,
            buf@ =~= bytes@.subrange(pos as int, pos as int + i as int),
        decreases 8 - i,
    {
        proof {
            assert(bytes@.subrange(pos as int, pos as int + i as int + 1) =~= bytes@.subrange(
                pos as int,
                pos as int + i as int,
            ).push(bytes@[pos as int + i as int]));
        }
        buf.push(bytes[pos + i]);
        i = i + 1;
    }
    u64_from_le_bytes(buf.as_slice())
}

/// Reads a 32-bit little-endian value at byte offset `pos`.
pub fn read_u32(bytes: &Vec<u8>, pos: usize) -> (r: u32)
    requires
        pos + 4 <= bytes@.len(),
    ensures
        r == spec_u32_from_le_bytes(bytes@.subrange(pos as int, pos as int + 4)),
{
    let blen = bytes.len();
    let mut buf: Vec<u8> = Vec::new();
    let mut i: usize = 0;
    while i < 4
        invariant
            pos + 4 <= bytes@.len(),
            blen == bytes@.len(),
            i <= 4,
            buf@ =~= bytes@.subrange(pos as int, pos as int + i as int),
        decreases 4 - i,
    {
        proof {
            assert(bytes@.subrange(pos as int, pos as int + i as int + 1) =~= bytes@.subrange(
                pos as int,
                pos as int + i as int,
            ).push(bytes@[pos as int + i as int]));
        }
        buf.push(bytes[pos + i]);
        i = i + 1;
    }
    u32_from_le_bytes(buf.as_slice())
}

impl NaiveAccumulator {
    /// Serializes the accumulator: version, tag, digest.
    pub fn to_bytes(&self) -> (r: Vec<u8>)
        ensures
            r@ == ser_naive(self.digest.seed, self.digest.count, self.digest.state),
    {
        let mut out: Vec<u8> = Vec::new();
        out.push(FORMAT_VERSION);
        out.push(TAG_NAIVE);
        push_u64(&mut out, self.digest.seed);
        push_u64(&mut out, self.digest.count);
        push_u64(&mut out, self.digest.state);
        proof {
            assert(out@ =~= ser_naive(self.digest.seed, self.digest.count, self.digest.state));
        }
        out
    }

    /// Parses the serialization of a naive accumulator; accepts exactly
    /// the streams `to_bytes` writes (for counts a machine can hold).
    pub fn from_bytes(bytes: &Vec<u8>) -> (r: Option<NaiveAccumulator>)
        ensures
            match r {
                Some(a) => a.wfs() && bytes@ == ser_naive(
                    a.digest.seed,
                    a.digest.count,
                    a.digest.state,
                ),
                None => true,
            },
            forall|s: u64, c: u64, st: u64|
                bytes@ == ser_naive(s, c, st) && c <= usize::MAX ==> (r matches Some(a)
                    && a.digest.seed == s && a.digest.count == c && a.digest.state == st),
    {
        proof {
            vstd::bytes::lemma_auto_spec_u64_to_from_le_bytes();
        }
        if bytes.len() != 26 {
            return None;
        }
        if bytes[0] != FORMAT_VERSION || bytes[1] != TAG_NAIVE {
            return None;
        }
        let seed = read_u64(bytes, 2);
        let count = read_u64(bytes, 10);
        let state = read_u64(bytes, 18);
        if count > (usize::MAX as u64) {
            proof {
                assert forall|s: u64, c: u64, st: u64|
                    bytes@ == ser_naive(s, c, st) && c <= usize::MAX implies false by {
                    assert(bytes@.subrange(10, 18) =~= spec_u64_to_le_bytes(c));
                }
            }
            return None;
        }
        let a = NaiveAccumulator { digest: Digest::from_parts(seed, count, state) };
        proof {
            assert(bytes@ =~= ser_naive(seed, count, state)) by {
                assert(bytes@.subrange(2, 10) =~= spec_u64_to_le_bytes(seed)) by {
                    assert(spec_u64_to_le_bytes(spec_u64_from_le_bytes(bytes@.subrange(2, 10)))
                        =~= bytes@.subrange(2, 10));
                };
                assert(bytes@.subrange(10, 18) =~= spec_u64_to_le_bytes(count)) by {
                    assert(spec_u64_to_le_bytes(spec_u64_from_le_bytes(bytes@.subrange(10, 18)))
                        =~= bytes@.subrange(10, 18));
                };
                assert(bytes@.subrange(18, 26) =~= spec_u64_to_le_bytes(state)) by {
                    assert(spec_u64_to_le_bytes(spec_u64_from_le_bytes(bytes@.subrange(18, 26)))
                        =~= bytes@.subrange(18, 26));
                };
            };
            assert forall|s: u64, c: u64, st: u64|
                bytes@ == ser_naive(s, c, st) && c <= usize::MAX implies a.digest.seed == s
                && a.digest.count == c && a.digest.state == st by {
                assert(bytes@.subrange(2, 10) =~= spec_u64_to_le_bytes(s));
                assert(bytes@.subrange(10, 18) =~= spec_u64_to_le_bytes(c));
                assert(bytes@.subrange(18, 26) =~= spec_u64_to_le_bytes(st));
            }
        }
        Some(a)
    }
}

/// The layout of a serialized power-sum accumulator: fixed header and
/// digest fields, threshold, prime, then the sums at stride 8.
proof fn lemma_ser_power_sum_shape(s: u64, c: u64, st: u64, sums: Seq<i64>)
    ensures
        ser_power_sum(s, c, st, sums).len() == 42 + 8 * sums.len(),
        ser_power_sum(s, c, st, sums)[0] == FORMAT_VERSION,
        ser_power_sum(s, c, st, sums)[1] == TAG_POWER_SUM,
        ser_power_sum(s, c, st, sums).subrange(2, 10) == spec_u64_to_le_bytes(s),
        ser_power_sum(s, c, st, sums).subrange(10, 18) == spec_u64_to_le_bytes(c),
        ser_power_sum(s, c, st, sums).subrange(18, 26) == spec_u64_to_le_bytes(st),
        ser_power_sum(s, c, st, sums).subrange(26, 34) == spec_u64_to_le_bytes(
            sums.len() as u64,
        ),
        ser_power_sum(s, c, st, sums).subrange(34, 42) == spec_u64_to_le_bytes(
            LARGE_PRIME as u64,
        ),
        forall|u: int|
            0 <= u < sums.len() ==> #[trigger] ser_power_sum(s, c, st, sums).subrange(
                42 + 8 * u,
                42 + 8 * u + 8,
            ) == spec_u64_to_le_bytes(sums[u] as u64),
{
    vstd::bytes::lemma_auto_spec_u64_to_from_le_bytes();
    let su = Seq::new(sums.len(), |i: int| sums[i] as u64);
    lemma_ser_u64s_index(su, 0);
    let b = ser_power_sum(s, c, st, sums);
    assert(b.subrange(2, 10) =~= spec_u64_to_le_bytes(s));
    assert(b.subrange(10, 18) =~= spec_u64_to_le_bytes(c));
    assert(b.subrange(18, 26) =~= spec_u64_to_le_bytes(st));
    assert(b.subrange(26, 34) =~= spec_u64_to_le_bytes(sums.len() as u64));
    assert(b.subrange(34, 42) =~= spec_u64_to_le_bytes(LARGE_PRIME as u64));
    assert forall|u: int| 0 <= u < sums.len() implies #[trigger] b.subrange(
        42 + 8 * u,
        42 + 8 * u + 8,
    ) == spec_u64_to_le_bytes(sums[u] as u64) by {
        lemma_ser_u64s_index(su, u);
        assert(b.subrange(42 + 8 * u, 42 + 8 * u + 8) =~= ser_u64s(su).subrange(
            8 * u,
            8 * u + 8,
        ));
    }
}

impl PowerSumAccumulator {

    /// Serializes the accumulator: version, tag, digest, threshold, field
    /// prime, power sums.
    pub fn to_bytes(&self) -> (r: Vec<u8>)
        requires
            forall|j: int|
                0 <= j < self.power_sums@.len() ==> 0 <= #[trigger] self.power_sums@[j],
        ensures
            r@ == ser_power_sum(
                self.digest.seed,
                self.digest.count,
                self.digest.state,
                self.power_sums@,
            ),
    {
        let mut out: Vec<u8> = Vec::new();
        out.push(FORMAT_VERSION);
        out.push(TAG_POWER_SUM);
        push_u64(&mut out, self.digest.seed);
        push_u64(&mut out, self.digest.count);
        push_u64(&mut out, self.digest.state);
        push_u64(&mut out, self.power_sums.len() as u64);
        push_u64(&mut out, LARGE_PRIME as u64);
        let ghost head = out@;
        let ghost sums_u64 = Seq::new(self.power_sums@.len(), |i: int| self.power_sums@[i] as u64);
        let mut j: usize = 0;
        while j < self.power_sums.len()
            invariant
                forall|t: int|
                    0 <= t < self.power_sums@.len() ==> 0 <= #[trigger] self.power_sums@[t],
                sums_u64 == Seq::new(
                    self.power_sums@.len(),
                    |i: int| self.power_sums@[i] as u64,
                ),
                j <= self.power_sums@.len(),
                out@ == head + ser_u64s(sums_u64.take(j as int)),
            decreases self.power_sums@.len() - j,
        {
            push_u64(&mut out, self.power_sums[j] as u64);
            proof {
                assert(sums_u64.take(j as int + 1).drop_last() =~= sums_u64.take(j as int));
                assert(sums_u64.take(j as int + 1).last() == sums_u64[j as int]);
                assert(out@ =~= head + ser_u64s(sums_u64.take(j as int + 1)));
            }
            j = j + 1;
        }
        proof {
            assert(sums_u64.take(sums_u64.len() as int) =~= sums_u64);
            assert(out@ =~= ser_power_sum(
                self.digest.seed,
                self.digest.count,
                self.digest.state,
                self.power_sums@,
            ));
        }
        out
    }

    /// Parses the serialization of a power-sum accumulator; accepts
    /// exactly the streams `to_bytes` writes for structurally sound
    /// states (sums reduced in the field, threshold in range).
    pub fn from_bytes(bytes: &Vec<u8>) -> (r: Option<PowerSumAccumulator>)
        ensures
            match r {
                Some(a) => {
                    &&& a.wfs()
                    &&& bytes@ == ser_power_sum(
                        a.digest.seed,
                        a.digest.count,
                        a.digest.state,
                        a.power_sums@,
                    )
                },
                None => true,
            },
            forall|s: u64, c: u64, st: u64, sums: Seq<i64>|
                (bytes@ == ser_power_sum(s, c, st, sums) && c <= usize::MAX && sums.len()
                    < 0x7fff_ffff && (forall|u: int|
                    0 <= u < sums.len() ==> 0 <= #[trigger] sums[u] < LARGE_PRIME)) ==> (r matches Some(a) && a.digest.seed == s && a.digest.count
                    == c && a.digest.state == st && a.power_sums@ == sums),
    {
        proof {
            vstd::bytes::lemma_auto_spec_u64_to_from_le_bytes();
        }
        if bytes.len() < 42 {
            proof {
                assert forall|s: u64, c: u64, st: u64, sums: Seq<i64>|
                    !(bytes@ == ser_power_sum(s, c, st, sums) && c <= usize::MAX && sums.len()
                    < 0x7fff_ffff && (forall|u: int|
                    0 <= u < sums.len() ==> 0 <= #[trigger] sums[u] < LARGE_PRIME)) by {
                    if bytes@ == ser_power_sum(s, c, st, sums) {
                        lemma_ser_power_sum_shape(s, c, st, sums);
                    }
                }
            }
            return None;
        }
        if bytes[0] != FORMAT_VERSION || bytes[1] != TAG_POWER_SUM {
            proof {
                assert forall|s: u64, c: u64, st: u64, sums: Seq<i64>|
                    !(bytes@ == ser_power_sum(s, c, st, sums) && c <= usize::MAX && sums.len()
                    < 0x7fff_ffff && (forall|u: int|
                    0 <= u < sums.len() ==> 0 <= #[trigger] sums[u] < LARGE_PRIME)) by {
                    if bytes@ == ser_power_sum(s, c, st, sums) {
                        lemma_ser_power_sum_shape(s, c, st, sums);
                    }
                }
            }
            return None;
        }
        let seed = read_u64(bytes, 2);
        let count = read_u64(bytes, 10);
        let state = read_u64(bytes, 18);
        let t = read_u64(bytes, 26);
        let prime = read_u64(bytes, 34);
        if count > (usize::MAX as u64) || prime != (LARGE_PRIME as u64) || t >= 0x7fff_ffff
            || (bytes.len() as u64) != 42u64 + 8u64 * t {
            proof {
                assert forall|s: u64, c: u64, st: u64, sums: Seq<i64>|
                    !(bytes@ == ser_power_sum(s, c, st, sums) && c <= usize::MAX && sums.len()
                    < 0x7fff_ffff && (forall|u: int|
                    0 <= u < sums.len() ==> 0 <= #[trigger] sums[u] < LARGE_PRIME)) by {
                    if bytes@ == ser_power_sum(s, c, st, sums) && c <= usize::MAX && sums.len()
                        < 0x7fff_ffff {
                        lemma_ser_power_sum_shape(s, c, st, sums);
                        assert(count == c);
                        assert(prime == LARGE_PRIME as u64);
                        assert(t == sums.len() as u64);
                    }
                }
            }
            return None;
        }
        let tu = t as usize;
        let mut sums: Vec<i64> = Vec::new();
        let blen = bytes.len();
        let mut j: usize = 0;
        while j < tu
            invariant
                bytes@.len() == 42 + 8 * tu,
                blen == bytes@.len(),
                tu < 0x7fff_ffff,
                j <= tu,
                sums@.len() == j,
                forall|u: int| 0 <= u < j ==> 0 <= #[trigger] sums@[u] < LARGE_PRIME,
                forall|u: int|
                    0 <= u < j ==> #[trigger] sums@[u] as u64 == spec_u64_from_le_bytes(
                        bytes@.subrange(42 + 8 * u, 42 + 8 * u + 8),
                    ),
            decreases tu - j,
        {
            let v = read_u64(bytes, 42 + 8 * j);
            if v >= (LARGE_PRIME as u64) {
                proof {
                    assert forall|s: u64, c: u64, st: u64, sums2: Seq<i64>|
                        !(bytes@ == ser_power_sum(s, c, st, sums2) && c <= usize::MAX
                            && sums2.len() < 0x7fff_ffff && (forall|u: int|
                            0 <= u < sums2.len() ==> 0 <= #[trigger] sums2[u]
                                < LARGE_PRIME)) by {
                        if bytes@ == ser_power_sum(s, c, st, sums2) && c <= usize::MAX
                            && sums2.len() < 0x7fff_ffff && (forall|u: int|
                            0 <= u < sums2.len() ==> 0 <= #[trigger] sums2[u] < LARGE_PRIME) {
                            lemma_ser_power_sum_shape(s, c, st, sums2);
                            vstd::bytes::lemma_auto_spec_u64_to_from_le_bytes();
                            assert(tu == sums2.len());
                            assert(bytes@.subrange(42 + 8 * (j as int), 42 + 8 * (j as int) + 8)
                                == spec_u64_to_le_bytes(sums2[j as int] as u64));
                            assert(v == sums2[j as int] as u64);
                        }
                    }
                }
                return None;
            }
            sums.push(v as i64);
            j = j + 1;
        }
        let a = PowerSumAccumulator {
            digest: Digest::from_parts(seed, count, state),
            power_sums: sums,
        };
        proof {
            vstd::bytes::lemma_auto_spec_u64_to_from_le_bytes();
            let su = Seq::new(a.power_sums@.len(), |i: int| a.power_sums@[i] as u64);
            assert(bytes@ =~= ser_power_sum(seed, count, state, a.power_sums@)) by {
                assert(bytes@.subrange(2, 10) =~= spec_u64_to_le_bytes(seed)) by {
                    assert(spec_u64_to_le_bytes(spec_u64_from_le_bytes(bytes@.subrange(2, 10)))
                        =~= bytes@.subrange(2, 10));
                };
                assert(bytes@.subrange(10, 18) =~= spec_u64_to_le_bytes(count)) by {
                    assert(spec_u64_to_le_bytes(spec_u64_from_le_bytes(bytes@.subrange(10, 18)))
                        =~= bytes@.subrange(10, 18));
                };
                assert(bytes@.subrange(18, 26) =~= spec_u64_to_le_bytes(state)) by {
                    assert(spec_u64_to_le_bytes(spec_u64_from_le_bytes(bytes@.subrange(18, 26)))
                        =~= bytes@.subrange(18, 26));
                };
                assert(bytes@.subrange(26, 34) =~= spec_u64_to_le_bytes(t)) by {
                    assert(spec_u64_to_le_bytes(spec_u64_from_le_bytes(bytes@.subrange(26, 34)))
                        =~= bytes@.subrange(26, 34));
                };
                assert(bytes@.subrange(34, 42) =~= spec_u64_to_le_bytes(prime)) by {
                    assert(spec_u64_to_le_bytes(spec_u64_from_le_bytes(bytes@.subrange(34, 42)))
                        =~= bytes@.subrange(34, 42));
                };
                assert(bytes@.subrange(42, bytes@.len() as int) =~= ser_u64s(su)) by {
                    lemma_ser_u64s_index(su, 0);
                    assert forall|b: int|
                        0 <= b < 8 * su.len() implies ser_u64s(su)[b] == bytes@.subrange(
                        42,
                        bytes@.len() as int,
                    )[b] by {
                        let u = b / 8;
                        let o = b % 8;
                        vstd::arithmetic::div_mod::lemma_fundamental_div_mod(b, 8);
                        lemma_ser_u64s_index(su, u);
                        assert(ser_u64s(su).subrange(8 * u, 8 * u + 8)[o] == ser_u64s(su)[b]);
                        assert(su[u] == sums@[u] as u64);
                        assert(spec_u64_to_le_bytes(su[u]) =~= bytes@.subrange(
                            42 + 8 * u,
                            42 + 8 * u + 8,
                        )) by {
                            assert(su[u] == spec_u64_from_le_bytes(
                                bytes@.subrange(42 + 8 * u, 42 + 8 * u + 8),
                            ));
                            assert(spec_u64_to_le_bytes(spec_u64_from_le_bytes(
                                bytes@.subrange(42 + 8 * u, 42 + 8 * u + 8),
                            )) =~= bytes@.subrange(42 + 8 * u, 42 + 8 * u + 8));
                        };
                        assert(bytes@.subrange(42 + 8 * u, 42 + 8 * u + 8)[o] == bytes@.subrange(
                            42,
                            bytes@.len() as int,
                        )[b]);
                    }
                    lemma_ser_u64s_index(su, 0);
                    assert(ser_u64s(su).len() == 8 * su.len());
                };
            };
        }
        proof {
            assert forall|s: u64, c: u64, st: u64, sums2: Seq<i64>|
                (bytes@ == ser_power_sum(s, c, st, sums2) && c <= usize::MAX && sums2.len()
                    < 0x7fff_ffff && (forall|u: int|
                    0 <= u < sums2.len() ==> 0 <= #[trigger] sums2[u]
                        < LARGE_PRIME)) implies (a.digest.seed == s && a.digest.count == c
                && a.digest.state == st && a.power_sums@ == sums2) by {
                lemma_ser_power_sum_shape(s, c, st, sums2);
                vstd::bytes::lemma_auto_spec_u64_to_from_le_bytes();
                assert(seed == s && count == c && state == st);
                assert(tu == sums2.len());
                assert(a.power_sums@ =~= sums2) by {
                    assert forall|u: int| 0 <= u < tu implies a.power_sums@[u] == sums2[u] by {
                        assert(a.power_sums@[u] as u64 == spec_u64_from_le_bytes(
                            bytes@.subrange(42 + 8 * u, 42 + 8 * u + 8),
                        ));
                        assert(spec_u64_from_le_bytes(spec_u64_to_le_bytes(sums2[u] as u64))
                            == sums2[u] as u64);
                    }
                };
            }
        }
        Some(a)
    }
}

/// Whether `bytes` is the serialization of a structurally sound CBF
/// accumulator with the given fields.
pub open spec fn cbf_stream_of(
    bytes: Seq<u8>,
    s: u64,
    c: u64,
    st: u64,
    w: u64,
    ne: u64,
    k: u64,
    s1: u64,
    s2: u64,
    blocks: Seq<u32>,
) -> bool {
    &&& bytes == ser_cbf(s, c, st, w, ne, k, s1, s2, blocks)
    &&& c <= usize::MAX
    &&& 1 <= w <= 32
    &&& 1 <= ne <= usize::MAX
    &&& 1 <= k <= 0xffff_ffff
    &&& (ne as int) * (w as int) + 31 <= usize::MAX
    &&& blocks.len() == ((ne as int) * (w as int) + 31) / 32
}

/// Whether `bytes` is the serialization of a structurally sound IBLT
/// accumulator with the given fields.
pub open spec fn iblt_stream_of(
    bytes: Seq<u8>,
    s: u64,
    c: u64,
    st: u64,
    w: u64,
    ne: u64,
    k: u64,
    s1: u64,
    s2: u64,
    tseed: u64,
    blocks: Seq<u32>,
    data: Seq<u32>,
) -> bool {
    &&& bytes == ser_iblt(s, c, st, w, ne, k, s1, s2, tseed, blocks, data)
    &&& c <= usize::MAX
    &&& 1 <= w <= 32
    &&& 1 <= ne <= 0xffff_ffff
    &&& 1 <= k <= 0xffff_ffff
    &&& (ne as int) * (w as int) + 31 <= usize::MAX
    &&& blocks.len() == ((ne as int) * (w as int) + 31) / 32
    &&& data.len() == ne
}

/// The layout of a serialized CBF accumulator.
proof fn lemma_ser_cbf_shape(
    s: u64,
    c: u64,
    st: u64,
    w: u64,
    ne: u64,
    k: u64,
    s1: u64,
    s2: u64,
    blocks: Seq<u32>,
)
    ensures
        ser_cbf(s, c, st, w, ne, k, s1, s2, blocks).len() == 66 + 4 * blocks.len(),
        ser_cbf(s, c, st, w, ne, k, s1, s2, blocks)[0] == FORMAT_VERSION,
        ser_cbf(s, c, st, w, ne, k, s1, s2, blocks)[1] == TAG_CBF,
        ser_cbf(s, c, st, w, ne, k, s1, s2, blocks).subrange(2, 10) == spec_u64_to_le_bytes(s),
        ser_cbf(s, c, st, w, ne, k, s1, s2, blocks).subrange(10, 18) == spec_u64_to_le_bytes(c),
        ser_cbf(s, c, st, w, ne, k, s1, s2, blocks).subrange(18, 26) == spec_u64_to_le_bytes(st),
        ser_cbf(s, c, st, w, ne, k, s1, s2, blocks).subrange(26, 34) == spec_u64_to_le_bytes(w),
        ser_cbf(s, c, st, w, ne, k, s1, s2, blocks).subrange(34, 42) == spec_u64_to_le_bytes(ne),
        ser_cbf(s, c, st, w, ne, k, s1, s2, blocks).subrange(42, 50) == spec_u64_to_le_bytes(k),
        ser_cbf(s, c, st, w, ne, k, s1, s2, blocks).subrange(50, 58) == spec_u64_to_le_bytes(s1),
        ser_cbf(s, c, st, w, ne, k, s1, s2, blocks).subrange(58, 66) == spec_u64_to_le_bytes(s2),
        forall|u: int|
            0 <= u < blocks.len() ==> #[trigger] ser_cbf(
                s,
                c,
                st,
                w,
                ne,
                k,
                s1,
                s2,
                blocks,
            ).subrange(66 + 4 * u, 66 + 4 * u + 4) == spec_u32_to_le_bytes(blocks[u]),
{
    vstd::bytes::lemma_auto_spec_u64_to_from_le_bytes();
    vstd::bytes::lemma_auto_spec_u32_to_from_le_bytes();
    lemma_ser_u32s_index(blocks, 0);
    let b = ser_cbf(s, c, st, w, ne, k, s1, s2, blocks);
    assert(b.subrange(2, 10) =~= spec_u64_to_le_bytes(s));
    assert(b.subrange(10, 18) =~= spec_u64_to_le_bytes(c));
    assert(b.subrange(18, 26) =~= spec_u64_to_le_bytes(st));
    assert(b.subrange(26, 34) =~= spec_u64_to_le_bytes(w));
    assert(b.subrange(34, 42) =~= spec_u64_to_le_bytes(ne));
    assert(b.subrange(42, 50) =~= spec_u64_to_le_bytes(k));
    assert(b.subrange(50, 58) =~= spec_u64_to_le_bytes(s1));
    assert(b.subrange(58, 66) =~= spec_u64_to_le_bytes(s2));
    assert forall|u: int| 0 <= u < blocks.len() implies #[trigger] b.subrange(
        66 + 4 * u,
        66 + 4 * u + 4,
    ) == spec_u32_to_le_bytes(blocks[u]) by {
        lemma_ser_u32s_index(blocks, u);
        assert(b.subrange(66 + 4 * u, 66 + 4 * u + 4) =~= ser_u32s(blocks).subrange(
            4 * u,
            4 * u + 4,
        ));
    }
}

/// The layout of a serialized IBLT accumulator.
proof fn lemma_ser_iblt_shape(
    s: u64,
    c: u64,
    st: u64,
    w: u64,
    ne: u64,
    k: u64,
    s1: u64,
    s2: u64,
    tseed: u64,
    blocks: Seq<u32>,
    data: Seq<u32>,
)
    ensures
        ser_iblt(s, c, st, w, ne, k, s1, s2, tseed, blocks, data).len() == 74 + 4 * blocks.len()
            + 4 * data.len(),
        ser_iblt(s, c, st, w, ne, k, s1, s2, tseed, blocks, data)[0] == FORMAT_VERSION,
        ser_iblt(s, c, st, w, ne, k, s1, s2, tseed, blocks, data)[1] == TAG_IBLT,
        ser_iblt(s, c, st, w, ne, k, s1, s2, tseed, blocks, data).subrange(2, 10)
            == spec_u64_to_le_bytes(s),
        ser_iblt(s, c, st, w, ne, k, s1, s2, tseed, blocks, data).subrange(10, 18)
            == spec_u64_to_le_bytes(c),
        ser_iblt(s, c, st, w, ne, k, s1, s2, tseed, blocks, data).subrange(18, 26)
            == spec_u64_to_le_bytes(st),
        ser_iblt(s, c, st, w, ne, k, s1, s2, tseed, blocks, data).subrange(26, 34)
            == spec_u64_to_le_bytes(w),
        ser_iblt(s, c, st, w, ne, k, s1, s2, tseed, blocks, data).subrange(34, 42)
            == spec_u64_to_le_bytes(ne),
        ser_iblt(s, c, st, w, ne, k, s1, s2, tseed, blocks, data).subrange(42, 50)
            == spec_u64_to_le_bytes(k),
        ser_iblt(s, c, st, w, ne, k, s1, s2, tseed, blocks, data).subrange(50, 58)
            == spec_u64_to_le_bytes(s1),
        ser_iblt(s, c, st, w, ne, k, s1, s2, tseed, blocks, data).subrange(58, 66)
            == spec_u64_to_le_bytes(s2),
        ser_iblt(s, c, st, w, ne, k, s1, s2, tseed, blocks, data).subrange(66, 74)
            == spec_u64_to_le_bytes(tseed),
        forall|u: int|
            0 <= u < blocks.len() ==> #[trigger] ser_iblt(
                s,
                c,
                st,
                w,
                ne,
                k,
                s1,
                s2,
                tseed,
                blocks,
                data,
            ).subrange(74 + 4 * u, 74 + 4 * u + 4) == spec_u32_to_le_bytes(blocks[u]),
        forall|u: int|
            0 <= u < data.len() ==> #[trigger] ser_iblt(
                s,
                c,
                st,
                w,
                ne,
                k,
                s1,
                s2,
                tseed,
                blocks,
                data,
            ).subrange(
                74 + 4 * blocks.len() + 4 * u,
                74 + 4 * blocks.len() + 4 * u + 4,
            ) == spec_u32_to_le_bytes(data[u]),
{
    vstd::bytes::lemma_auto_spec_u64_to_from_le_bytes();
    vstd::bytes::lemma_auto_spec_u32_to_from_le_bytes();
    lemma_ser_u32s_index(blocks, 0);
    lemma_ser_u32s_index(data, 0);
    let b = ser_iblt(s, c, st, w, ne, k, s1, s2, tseed, blocks, data);
    assert(b.subrange(2, 10) =~= spec_u64_to_le_bytes(s));
    assert(b.subrange(10, 18) =~= spec_u64_to_le_bytes(c));
    assert(b.subrange(18, 26) =~= spec_u64_to_le_bytes(st));
    assert(b.subrange(26, 34) =~= spec_u64_to_le_bytes(w));
    assert(b.subrange(34, 42) =~= spec_u64_to_le_bytes(ne));
    assert(b.subrange(42, 50) =~= spec_u64_to_le_bytes(k));
    assert(b.subrange(50, 58) =~= spec_u64_to_le_bytes(s1));
    assert(b.subrange(58, 66) =~= spec_u64_to_le_bytes(s2));
    assert(b.subrange(66, 74) =~= spec_u64_to_le_bytes(tseed));
    assert forall|u: int| 0 <= u < blocks.len() implies #[trigger] b.subrange(
        74 + 4 * u,
        74 + 4 * u + 4,
    ) == spec_u32_to_le_bytes(blocks[u]) by {
        lemma_ser_u32s_index(blocks, u);
        assert(b.subrange(74 + 4 * u, 74 + 4 * u + 4) =~= ser_u32s(blocks).subrange(
            4 * u,
            4 * u + 4,
        ));
    }
    assert forall|u: int| 0 <= u < data.len() implies #[trigger] b.subrange(
        74 + 4 * blocks.len() + 4 * u,
        74 + 4 * blocks.len() + 4 * u + 4,
    ) == spec_u32_to_le_bytes(data[u]) by {
        lemma_ser_u32s_index(data, u);
        assert(b.subrange(
            74 + 4 * blocks.len() + 4 * u,
            74 + 4 * blocks.len() + 4 * u + 4,
        ) =~= ser_u32s(data).subrange(4 * u, 4 * u + 4));
    }
}

impl CBFAccumulator {

    /// Serializes the accumulator: version, tag, digest, filter shape and
    /// seeds, packed counter blocks.
    pub fn to_bytes(&self) -> (r: Vec<u8>)
        requires
            self.wfs(),
        ensures
            r@ == ser_cbf(
                self.digest.seed,
                self.digest.count,
                self.digest.state,
                self.cbf.counters.bits_per_val as u64,
                self.cbf.num_entries,
                self.cbf.num_hashes as u64,
                self.cbf.seed_one,
                self.cbf.seed_two,
                self.cbf.counters.blocks@,
            ),
    {
        let mut out: Vec<u8> = Vec::new();
        out.push(FORMAT_VERSION);
        out.push(TAG_CBF);
        push_u64(&mut out, self.digest.seed);
        push_u64(&mut out, self.digest.count);
        push_u64(&mut out, self.digest.state);
        push_u64(&mut out, self.cbf.counters.bits_per_val() as u64);
        push_u64(&mut out, self.cbf.num_entries());
        push_u64(&mut out, self.cbf.num_hashes() as u64);
        push_u64(&mut out, self.cbf.seed_one);
        push_u64(&mut out, self.cbf.seed_two);
        push_u32s(&mut out, &self.cbf.counters.blocks);
        proof {
            assert(out@ =~= ser_cbf(
                self.digest.seed,
                self.digest.count,
                self.digest.state,
                self.cbf.counters.bits_per_val as u64,
                self.cbf.num_entries,
                self.cbf.num_hashes as u64,
                self.cbf.seed_one,
                self.cbf.seed_two,
                self.cbf.counters.blocks@,
            ));
        }
        out
    }

    /// Parses the serialization of a CBF accumulator, checking every
    /// structural bound on the way in.
    pub fn from_bytes(bytes: &Vec<u8>) -> (r: Option<CBFAccumulator>)
        ensures
            match r {
                Some(a) => {
                    &&& a.wfs()
                    &&& bytes@ == ser_cbf(
                        a.digest.seed,
                        a.digest.count,
                        a.digest.state,
                        a.cbf.counters.bits_per_val as u64,
                        a.cbf.num_entries,
                        a.cbf.num_hashes as u64,
                        a.cbf.seed_one,
                        a.cbf.seed_two,
                        a.cbf.counters.blocks@,
                    )
                },
                None => true,
            },
            forall|s: u64, c: u64, st: u64, w2: u64, ne2: u64, k2: u64, sa: u64, sb: u64,
                blocks2: Seq<u32>|
                cbf_stream_of(bytes@, s, c, st, w2, ne2, k2, sa, sb, blocks2) ==> (r matches Some(
                    a,
                ) && a.digest.seed == s && a.digest.count == c && a.digest.state == st
                    && a.cbf.counters.bits_per_val == w2 && a.cbf.num_entries == ne2
                    && a.cbf.num_hashes == k2 && a.cbf.seed_one == sa && a.cbf.seed_two == sb
                    && a.cbf.counters.blocks@ == blocks2),
    {
        proof {
            vstd::bytes::lemma_auto_spec_u64_to_from_le_bytes();
        }
        if bytes.len() < 66 {
            proof {
                lemma_cbf_stream_refuted(bytes@);
            }
            return None;
        }
        if bytes[0] != FORMAT_VERSION || bytes[1] != TAG_CBF {
            proof {
                lemma_cbf_stream_refuted(bytes@);
            }
            return None;
        }
        let seed = read_u64(bytes, 2);
        let count = read_u64(bytes, 10);
        let state = read_u64(bytes, 18);
        let w = read_u64(bytes, 26);
        let ne = read_u64(bytes, 34);
        let k = read_u64(bytes, 42);
        let s1 = read_u64(bytes, 50);
        let s2 = read_u64(bytes, 58);
        if count > (usize::MAX as u64) || w < 1 || w > 32 || ne < 1 || ne > (usize::MAX as u64)
            || k < 1 || k > 0xffff_ffff {
            proof {
                lemma_cbf_stream_refuted(bytes@);
            }
            return None;
        }
        if ne > 0xffff_ffff_ffff_ffff / w {
            proof {
                assert forall|s: u64, c: u64, st: u64, w2: u64, ne2: u64, k2: u64, sa: u64,
                    sb: u64, blocks2: Seq<u32>|
                    !cbf_stream_of(bytes@, s, c, st, w2, ne2, k2, sa, sb, blocks2) by {
                    if cbf_stream_of(bytes@, s, c, st, w2, ne2, k2, sa, sb, blocks2) {
                        lemma_ser_cbf_shape(s, c, st, w2, ne2, k2, sa, sb, blocks2);
                        assert(w == w2 && ne == ne2);
                        lemma_le_div_bound(ne as int, w as int);
                    }
                }
            }
            return None;
        }
        proof {
            vstd::arithmetic::div_mod::lemma_fundamental_div_mod(
                0xffff_ffff_ffff_ffffint,
                w as int,
            );
            assert((ne as int) * (w as int) <= 0xffff_ffff_ffff_ffffint) by (nonlinear_arith)
                requires
                    1 <= w,
                    0 <= ne <= 0xffff_ffff_ffff_ffffint / (w as int),
                    (0xffff_ffff_ffff_ffffint / (w as int)) * (w as int)
                        <= 0xffff_ffff_ffff_ffffint,
            ;
            assert((0xffff_ffff_ffff_ffffint / (w as int)) * (w as int)
                <= 0xffff_ffff_ffff_ffffint) by (nonlinear_arith)
                requires
                    1 <= w,
                    0xffff_ffff_ffff_ffffint == (w as int) * (0xffff_ffff_ffff_ffffint / (
                    w as int)) + 0xffff_ffff_ffff_ffffint % (w as int),
                    0 <= 0xffff_ffff_ffff_ffffint % (w as int),
            ;
        }
        let bits = ne * w;
        if bits > (usize::MAX as u64) - 31 {
            proof {
                assert forall|s: u64, c: u64, st: u64, w2: u64, ne2: u64, k2: u64, sa: u64,
                    sb: u64, blocks2: Seq<u32>|
                    !cbf_stream_of(bytes@, s, c, st, w2, ne2, k2, sa, sb, blocks2) by {
                    if cbf_stream_of(bytes@, s, c, st, w2, ne2, k2, sa, sb, blocks2) {
                        lemma_ser_cbf_shape(s, c, st, w2, ne2, k2, sa, sb, blocks2);
                        assert(w == w2 && ne == ne2);
                    }
                }
            }
            return None;
        }
        let nb = (bits + 31) / 32;
        if ((bytes.len() as u64) - 66) / 4 != nb || ((bytes.len() as u64) - 66) % 4 != 0 {
            proof {
                assert forall|s: u64, c: u64, st: u64, w2: u64, ne2: u64, k2: u64, sa: u64,
                    sb: u64, blocks2: Seq<u32>|
                    !cbf_stream_of(bytes@, s, c, st, w2, ne2, k2, sa, sb, blocks2) by {
                    if cbf_stream_of(bytes@, s, c, st, w2, ne2, k2, sa, sb, blocks2) {
                        lemma_ser_cbf_shape(s, c, st, w2, ne2, k2, sa, sb, blocks2);
                        assert(w == w2 && ne == ne2);
                        assert(nb == blocks2.len());
                        lemma_len_region(bytes@.len() as int, 66, blocks2.len() as int);
                    }
                }
            }
            return None;
        }
        let nbu = nb as usize;
        proof {
            assert(66 + 4 * (nb as int) == bytes@.len());
        }
        let blocks = read_u32s(bytes, 66, nbu);
        let counters = ValueVec {
            bits_per_val: w as usize,
            mask: crate::valuevec::mask_of_exec(w as u32),
            blocks,
            count: ne as usize,
        };
        proof {
            vstd::arithmetic::div_mod::lemma_fundamental_div_mod(bits as int + 31, 32);
            assert(counters.wf()) by {
                assert((ne as int) * (w as int) == bits) by (nonlinear_arith)
                    requires
                        bits == ne * w,
                ;
            };
        }
        let a = CBFAccumulator {
            digest: Digest::from_parts(seed, count, state),
            cbf: CountingBloomFilter {
                counters,
                num_entries: ne,
                num_hashes: k as u32,
                seed_one: s1,
                seed_two: s2,
                elems: Ghost(vstd::multiset::Multiset::empty()),
            },
        };
        proof {
            lemma_bytes_are_u32s(bytes@, 66, a.cbf.counters.blocks@);
            assert(bytes@.subrange(66, bytes@.len() as int) =~= bytes@.subrange(
                66,
                66 + 4 * (a.cbf.counters.blocks@.len() as int),
            ));
            assert(bytes@ =~= ser_cbf(seed, count, state, w, ne, k, s1, s2,
                a.cbf.counters.blocks@)) by {
                lemma_le64_region(bytes@, 2, seed);
                lemma_le64_region(bytes@, 10, count);
                lemma_le64_region(bytes@, 18, state);
                lemma_le64_region(bytes@, 26, w);
                lemma_le64_region(bytes@, 34, ne);
                lemma_le64_region(bytes@, 42, k);
                lemma_le64_region(bytes@, 50, s1);
                lemma_le64_region(bytes@, 58, s2);
            };
            assert forall|s: u64, c: u64, st: u64, w2: u64, ne2: u64, k2: u64, sa: u64, sb: u64,
                blocks2: Seq<u32>|
                cbf_stream_of(bytes@, s, c, st, w2, ne2, k2, sa, sb, blocks2) implies (
            a.digest.seed == s && a.digest.count == c && a.digest.state == st
                && a.cbf.counters.bits_per_val == w2 && a.cbf.num_entries == ne2
                && a.cbf.num_hashes == k2 && a.cbf.seed_one == sa && a.cbf.seed_two == sb
                && a.cbf.counters.blocks@ == blocks2) by {
                lemma_ser_cbf_shape(s, c, st, w2, ne2, k2, sa, sb, blocks2);
                vstd::bytes::lemma_auto_spec_u32_to_from_le_bytes();
                assert(seed == s && count == c && state == st && w == w2 && ne == ne2 && k == k2
                    && s1 == sa && s2 == sb);
                assert(nbu == blocks2.len());
                assert(a.cbf.counters.blocks@ =~= blocks2) by {
                    assert forall|u: int|
                        0 <= u < nbu implies a.cbf.counters.blocks@[u] == blocks2[u] by {
                        vstd::bytes::lemma_auto_spec_u32_to_from_le_bytes();
                        assert(a.cbf.counters.blocks@[u] == spec_u32_from_le_bytes(
                            bytes@.subrange(66 + 4 * u, 66 + 4 * u + 4),
                        ));
                        assert(spec_u32_to_le_bytes(blocks2[u]).len() == 4);
                        assert(spec_u32_from_le_bytes(spec_u32_to_le_bytes(blocks2[u]))
                            == blocks2[u]);
                    }
                };
            }
        }
        Some(a)
    }
}

/// Every structurally sound CBF stream is at least the fixed-field size
/// and carries the version and kind bytes; refutes parsing failures on
/// malformed heads.
proof fn lemma_cbf_stream_refuted(bytes: Seq<u8>)
    ensures
        forall|s: u64, c: u64, st: u64, w2: u64, ne2: u64, k2: u64, sa: u64, sb: u64,
            blocks2: Seq<u32>|
            #[trigger] cbf_stream_of(bytes, s, c, st, w2, ne2, k2, sa, sb, blocks2) ==> (
            bytes.len() >= 66 && bytes[0] == FORMAT_VERSION && bytes[1] == TAG_CBF && c
                <= usize::MAX && 1 <= w2 <= 32 && 1 <= ne2 <= usize::MAX && 1 <= k2
                <= 0xffff_ffff && spec_u64_from_le_bytes(bytes.subrange(10, 18)) == c
                && spec_u64_from_le_bytes(bytes.subrange(26, 34)) == w2 && spec_u64_from_le_bytes(
                bytes.subrange(34, 42),
            ) == ne2 && spec_u64_from_le_bytes(bytes.subrange(42, 50)) == k2),
{
    vstd::bytes::lemma_auto_spec_u64_to_from_le_bytes();
    assert forall|s: u64, c: u64, st: u64, w2: u64, ne2: u64, k2: u64, sa: u64, sb: u64,
        blocks2: Seq<u32>|
        #[trigger] cbf_stream_of(bytes, s, c, st, w2, ne2, k2, sa, sb, blocks2) implies (
    bytes.len() >= 66 && bytes[0] == FORMAT_VERSION && bytes[1] == TAG_CBF && c <= usize::MAX && 1
        <= w2 <= 32 && 1 <= ne2 <= usize::MAX && 1 <= k2 <= 0xffff_ffff && spec_u64_from_le_bytes(
        bytes.subrange(10, 18),
    ) == c && spec_u64_from_le_bytes(bytes.subrange(26, 34)) == w2 && spec_u64_from_le_bytes(
        bytes.subrange(34, 42),
    ) == ne2 && spec_u64_from_le_bytes(bytes.subrange(42, 50)) == k2) by {
        lemma_ser_cbf_shape(s, c, st, w2, ne2, k2, sa, sb, blocks2);
    }
}

/// A product bounded by a limit bounds one factor by the quotient.
proof fn lemma_le_div_bound(ne: int, w: int)
    requires
        1 <= w,
        0 <= ne,
        ne * w <= 0xffff_ffff_ffff_ffff,
    ensures
        ne <= 0xffff_ffff_ffff_ffffint / w,
{
    vstd::arithmetic::div_mod::lemma_div_by_multiple(ne, w);
    assert(ne * w == w * ne) by (nonlinear_arith);
    vstd::arithmetic::div_mod::lemma_div_is_ordered(ne * w, 0xffff_ffff_ffff_ffffint, w);
}

/// The byte length of a head plus a 4-byte-stride region divides back.
proof fn lemma_len_region(len: int, head: int, n: int)
    requires
        0 <= n,
        len == head + 4 * n,
    ensures
        (len - head) / 4 == n,
        (len - head) % 4 == 0,
{
    vstd::arithmetic::div_mod::lemma_div_by_multiple(n, 4);
    assert(4 * n == n * 4) by (nonlinear_arith);
    vstd::arithmetic::div_mod::lemma_mod_multiples_basic(n, 4);
}

impl IBLTAccumulator {
    /// Serializes the accumulator: version, tag, digest, table shape,
    /// seeds, packed counter blocks, data words.
    pub fn to_bytes(&self) -> (r: Vec<u8>)
        requires
            self.wfs(),
        ensures
            r@ == ser_iblt(
                self.digest.seed,
                self.digest.count,
                self.digest.state,
                self.iblt.counters.bits_per_val as u64,
                self.iblt.num_entries,
                self.iblt.num_hashes as u64,
                self.iblt.seed_one,
                self.iblt.seed_two,
                self.iblt.seed,
                self.iblt.counters.blocks@,
                self.iblt.data@,
            ),
    {
        let mut out: Vec<u8> = Vec::new();
        out.push(FORMAT_VERSION);
        out.push(TAG_IBLT);
        push_u64(&mut out, self.digest.seed);
        push_u64(&mut out, self.digest.count);
        push_u64(&mut out, self.digest.state);
        push_u64(&mut out, self.iblt.counters.bits_per_val() as u64);
        push_u64(&mut out, self.iblt.num_entries());
        push_u64(&mut out, self.iblt.num_hashes() as u64);
        push_u64(&mut out, self.iblt.seed_one);
        push_u64(&mut out, self.iblt.seed_two);
        push_u64(&mut out, self.iblt.seed());
        push_u32s(&mut out, &self.iblt.counters.blocks);
        push_u32s(&mut out, &self.iblt.data);
        proof {
            assert(out@ =~= ser_iblt(
                self.digest.seed,
                self.digest.count,
                self.digest.state,
                self.iblt.counters.bits_per_val as u64,
                self.iblt.num_entries,
                self.iblt.num_hashes as u64,
                self.iblt.seed_one,
                self.iblt.seed_two,
                self.iblt.seed,
                self.iblt.counters.blocks@,
                self.iblt.data@,
            ));
        }
        out
    }

    /// Parses the serialization of an IBLT accumulator, checking every
    /// structural bound on the way in.
    pub fn from_bytes(bytes: &Vec<u8>) -> (r: Option<IBLTAccumulator>)
        ensures
            match r {
                Some(a) => {
                    &&& a.wfs()
                    &&& bytes@ == ser_iblt(
                        a.digest.seed,
                        a.digest.count,
                        a.digest.state,
                        a.iblt.counters.bits_per_val as u64,
                        a.iblt.num_entries,
                        a.iblt.num_hashes as u64,
                        a.iblt.seed_one,
                        a.iblt.seed_two,
                        a.iblt.seed,
                        a.iblt.counters.blocks@,
                        a.iblt.data@,
                    )
                },
                None => true,
            },
            forall|s: u64, c: u64, st: u64, w2: u64, ne2: u64, k2: u64, sa: u64, sb: u64,
                ts: u64, blocks2: Seq<u32>, data2: Seq<u32>|
                iblt_stream_of(bytes@, s, c, st, w2, ne2, k2, sa, sb, ts, blocks2, data2) ==> (
                r matches Some(a) && a.digest.seed == s && a.digest.count == c && a.digest.state
                    == st && a.iblt.counters.bits_per_val == w2 && a.iblt.num_entries == ne2
                    && a.iblt.num_hashes == k2 && a.iblt.seed_one == sa && a.iblt.seed_two == sb
                    && a.iblt.seed == ts && a.iblt.counters.blocks@ == blocks2 && a.iblt.data@
                    == data2),
    {
        proof {
            vstd::bytes::lemma_auto_spec_u64_to_from_le_bytes();
        }
        if bytes.len() < 74 {
            proof {
                lemma_iblt_stream_refuted(bytes@);
            }
            return None;
        }
        if bytes[0] != FORMAT_VERSION || bytes[1] != TAG_IBLT {
            proof {
                lemma_iblt_stream_refuted(bytes@);
            }
            return None;
        }
        let seed = read_u64(bytes, 2);
        let count = read_u64(bytes, 10);
        let state = read_u64(bytes, 18);
        let w = read_u64(bytes, 26);
        let ne = read_u64(bytes, 34);
        let k = read_u64(bytes, 42);
        let s1 = read_u64(bytes, 50);
        let s2 = read_u64(bytes, 58);
        let tseed = read_u64(bytes, 66);
        if count > (usize::MAX as u64) || w < 1 || w > 32 || ne < 1 || ne > 0xffff_ffff || k < 1
            || k > 0xffff_ffff {
            proof {
                lemma_iblt_stream_refuted(bytes@);
            }
            return None;
        }
        proof {
            assert((ne as int) * (w as int) <= 0xffff_ffff * 32) by (nonlinear_arith)
                requires
                    1 <= w <= 32,
                    1 <= ne <= 0xffff_ffff,
            ;
        }
        let bits = ne * w;
        if bits > (usize::MAX as u64) - 31 {
            proof {
                assert forall|s: u64, c: u64, st: u64, w2: u64, ne2: u64, k2: u64, sa: u64,
                    sb: u64, ts: u64, blocks2: Seq<u32>, data2: Seq<u32>|
                    !iblt_stream_of(bytes@, s, c, st, w2, ne2, k2, sa, sb, ts, blocks2,
                    data2) by {
                    if iblt_stream_of(bytes@, s, c, st, w2, ne2, k2, sa, sb, ts, blocks2, data2) {
                        lemma_ser_iblt_shape(s, c, st, w2, ne2, k2, sa, sb, ts, blocks2, data2);
                        assert(w == w2 && ne == ne2);
                    }
                }
            }
            return None;
        }
        let nb = (bits + 31) / 32;
        if (bytes.len() as u64) != 74 + 4 * nb + 4 * ne {
            proof {
                assert forall|s: u64, c: u64, st: u64, w2: u64, ne2: u64, k2: u64, sa: u64,
                    sb: u64, ts: u64, blocks2: Seq<u32>, data2: Seq<u32>|
                    !iblt_stream_of(bytes@, s, c, st, w2, ne2, k2, sa, sb, ts, blocks2,
                    data2) by {
                    if iblt_stream_of(bytes@, s, c, st, w2, ne2, k2, sa, sb, ts, blocks2, data2) {
                        lemma_ser_iblt_shape(s, c, st, w2, ne2, k2, sa, sb, ts, blocks2, data2);
                        assert(w == w2 && ne == ne2);
                        assert(nb == blocks2.len());
                    }
                }
            }
            return None;
        }
        let nbu = nb as usize;
        let neu = ne as usize;
        proof {
            assert(74 + 4 * (nb as int) + 4 * (ne as int) == bytes@.len());
        }
        let blocks = read_u32s(bytes, 74, nbu);
        let data = read_u32s(bytes, 74 + 4 * nbu, neu);
        let counters = ValueVec {
            bits_per_val: w as usize,
            mask: crate::valuevec::mask_of_exec(w as u32),
            blocks,
            count: neu,
        };
        proof {
            vstd::arithmetic::div_mod::lemma_fundamental_div_mod(bits as int + 31, 32);
            assert(counters.wf()) by {
                assert((ne as int) * (w as int) == bits) by (nonlinear_arith)
                    requires
                        bits == ne * w,
                ;
            };
        }
        let a = IBLTAccumulator {
            digest: Digest::from_parts(seed, count, state),
            iblt: InvBloomLookupTable {
                counters,
                data,
                num_entries: ne,
                num_hashes: k as u32,
                seed: tseed,
                seed_one: s1,
                seed_two: s2,
                ins: Ghost(vstd::multiset::Multiset::empty()),
                outs: Ghost(vstd::multiset::Multiset::empty()),
            },
        };
        proof {
            lemma_bytes_are_u32s(bytes@, 74, a.iblt.counters.blocks@);
            lemma_bytes_are_u32s(bytes@, 74 + 4 * (nb as int), a.iblt.data@);
            assert(bytes@ =~= ser_iblt(seed, count, state, w, ne, k, s1, s2, tseed,
                a.iblt.counters.blocks@, a.iblt.data@)) by {
                lemma_le64_region(bytes@, 2, seed);
                lemma_le64_region(bytes@, 10, count);
                lemma_le64_region(bytes@, 18, state);
                lemma_le64_region(bytes@, 26, w);
                lemma_le64_region(bytes@, 34, ne);
                lemma_le64_region(bytes@, 42, k);
                lemma_le64_region(bytes@, 50, s1);
                lemma_le64_region(bytes@, 58, s2);
                lemma_le64_region(bytes@, 66, tseed);
            };
            assert forall|s: u64, c: u64, st: u64, w2: u64, ne2: u64, k2: u64, sa: u64, sb: u64,
                ts: u64, blocks2: Seq<u32>, data2: Seq<u32>|
                iblt_stream_of(bytes@, s, c, st, w2, ne2, k2, sa, sb, ts, blocks2,
            data2) implies (a.digest.seed == s && a.digest.count == c && a.digest.state == st
                && a.iblt.counters.bits_per_val == w2 && a.iblt.num_entries == ne2
                && a.iblt.num_hashes == k2 && a.iblt.seed_one == sa && a.iblt.seed_two == sb
                && a.iblt.seed == ts && a.iblt.counters.blocks@ == blocks2 && a.iblt.data@
                == data2) by {
                lemma_ser_iblt_shape(s, c, st, w2, ne2, k2, sa, sb, ts, blocks2, data2);
                assert(seed == s && count == c && state == st && w == w2 && ne == ne2 && k == k2
                    && s1 == sa && s2 == sb && tseed == ts);
                assert(nbu == blocks2.len());
                assert(neu == data2.len());
                assert(a.iblt.counters.blocks@ =~= blocks2) by {
                    assert forall|u: int|
                        0 <= u < nbu implies a.iblt.counters.blocks@[u] == blocks2[u] by {
                        vstd::bytes::lemma_auto_spec_u32_to_from_le_bytes();
                        assert(a.iblt.counters.blocks@[u] == spec_u32_from_le_bytes(
                            bytes@.subrange(74 + 4 * u, 74 + 4 * u + 4),
                        ));
                        assert(spec_u32_to_le_bytes(blocks2[u]).len() == 4);
                        assert(spec_u32_from_le_bytes(spec_u32_to_le_bytes(blocks2[u]))
                            == blocks2[u]);
                    }
                };
                assert(a.iblt.data@ =~= data2) by {
                    assert forall|u: int| 0 <= u < neu implies a.iblt.data@[u] == data2[u] by {
                        vstd::bytes::lemma_auto_spec_u32_to_from_le_bytes();
                        assert(a.iblt.data@[u] == spec_u32_from_le_bytes(
                            bytes@.subrange(
                                74 + 4 * (nbu as int) + 4 * u,
                                74 + 4 * (nbu as int) + 4 * u + 4,
                            ),
                        ));
                        assert(spec_u32_to_le_bytes(data2[u]).len() == 4);
                        assert(spec_u32_from_le_bytes(spec_u32_to_le_bytes(data2[u]))
                            == data2[u]);
                    }
                };
            }
        }
        Some(a)
    }
}

/// Every structurally sound IBLT stream is at least the fixed-field size
/// and carries the version and kind bytes; refutes parsing failures on
/// malformed heads.
proof fn lemma_iblt_stream_refuted(bytes: Seq<u8>)
    ensures
        forall|s: u64, c: u64, st: u64, w2: u64, ne2: u64, k2: u64, sa: u64, sb: u64, ts: u64,
            blocks2: Seq<u32>, data2: Seq<u32>|
            #[trigger] iblt_stream_of(bytes, s, c, st, w2, ne2, k2, sa, sb, ts, blocks2, data2)
                ==> (bytes.len() >= 74 && bytes[0] == FORMAT_VERSION && bytes[1] == TAG_IBLT && c
                <= usize::MAX && 1 <= w2 <= 32 && 1 <= ne2 <= 0xffff_ffff && 1 <= k2
                <= 0xffff_ffff && spec_u64_from_le_bytes(bytes.subrange(10, 18)) == c
                && spec_u64_from_le_bytes(bytes.subrange(26, 34)) == w2 && spec_u64_from_le_bytes(
                bytes.subrange(34, 42),
            ) == ne2 && spec_u64_from_le_bytes(bytes.subrange(42, 50)) == k2),
{
    vstd::bytes::lemma_auto_spec_u64_to_from_le_bytes();
    assert forall|s: u64, c: u64, st: u64, w2: u64, ne2: u64, k2: u64, sa: u64, sb: u64, ts: u64,
        blocks2: Seq<u32>, data2: Seq<u32>|
        #[trigger] iblt_stream_of(bytes, s, c, st, w2, ne2, k2, sa, sb, ts, blocks2,
    data2) implies (bytes.len() >= 74 && bytes[0] == FORMAT_VERSION && bytes[1] == TAG_IBLT && c
        <= usize::MAX && 1 <= w2 <= 32 && 1 <= ne2 <= 0xffff_ffff && 1 <= k2 <= 0xffff_ffff
        && spec_u64_from_le_bytes(bytes.subrange(10, 18)) == c && spec_u64_from_le_bytes(
        bytes.subrange(26, 34),
    ) == w2 && spec_u64_from_le_bytes(bytes.subrange(34, 42)) == ne2 && spec_u64_from_le_bytes(
        bytes.subrange(42, 50),
    ) == k2) by {
        lemma_ser_iblt_shape(s, c, st, w2, ne2, k2, sa, sb, ts, blocks2, data2);
    }
}

/// A value read back from a byte region pins that region to the value's
/// serialization.
proof fn lemma_le64_region(bytes: Seq<u8>, off: int, v: u64)
    requires
        0 <= off,
        off + 8 <= bytes.len(),
        v == spec_u64_from_le_bytes(bytes.subrange(off, off + 8)),
    ensures
        bytes.subrange(off, off + 8) == spec_u64_to_le_bytes(v),
{
    vstd::bytes::lemma_auto_spec_u64_to_from_le_bytes();
    assert(spec_u64_to_le_bytes(spec_u64_from_le_bytes(bytes.subrange(off, off + 8)))
        =~= bytes.subrange(off, off + 8));
}

} // verus!
