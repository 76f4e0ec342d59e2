//! Packed array of fixed-width unsigned integers.
//!
//! A `ValueVec` stores `count` values of `bits_per_val` bits each
//! (1 to 32), packed into a vector of 32-bit blocks.  Within a block the
//! first value sits in the highest bits; a value may span two blocks.
//! Writes never disturb the bits of the other values.

use vstd::prelude::*;

verus! {

/// The mask with the low `n` bits set (`n <= 32`).
pub open spec fn mask_of(n: u32) -> u32 {
    if n == 0 {
        0u32
    } else if n >= 32 {
        u32::MAX
    } else {
        u32::MAX >> ((32 - n) as u32)
    }
}

/// The `n` bits of `b` starting `shift` bits above the low end.
pub open spec fn read_bits(b: u32, shift: u32, n: u32) -> u32 {
    (b >> shift) & mask_of(n)
}

/// The value of cell `i` in the packed block store, for width `w`.
pub open spec fn packed_get(blocks: Seq<u32>, w: int, i: int) -> u32 {
    let p = i * w;
    let b0 = p / 32;
    let off = p % 32;
    if off + w <= 32 {
        read_bits(blocks[b0], (32 - off - w) as u32, w as u32)
    } else {
        let rem = 32 - off;
        let left = w - rem;
        (read_bits(blocks[b0], 0, rem as u32) << (left as u32)) | read_bits(
            blocks[b0 + 1],
            (32 - left) as u32,
            left as u32,
        )
    }
}

/// A bit-packed vector of `count` fixed-width unsigned values.
pub struct ValueVec {
    /// Width of each value in bits, 1 to 32.
    pub bits_per_val: usize,
    /// `2^bits_per_val - 1`: the largest storable value.
    pub mask: u32,
    /// The backing 32-bit blocks.
    pub blocks: Vec<u32>,
    /// Number of values.
    pub count: usize,
}

impl View for ValueVec {
    type V = Seq<u32>;

    open spec fn view(&self) -> Seq<u32> {
        Seq::new(self.count as nat, |i: int| packed_get(self.blocks@, self.bits_per_val as int, i))
    }
}

/// `(x & m) <= m`.
proof fn lemma_and_le(x: u32, m: u32)
    by (bit_vector)
    ensures
        (x & m) <= m,
{
}

/// A mask of at least one bit is positive.
pub proof fn lemma_mask_of_positive(w: u32)
    by (bit_vector)
    requires
        1 <= w <= 32,
    ensures
        mask_of(w) >= 1,
{
}

/// Shifting by zero is the identity under a mask.
proof fn lemma_shr0(b: u32, m: u32)
    by (bit_vector)
    ensures
        (b >> 0u32) & m == b & m,
{
}

/// Reading any range of an all-zero block gives zero.
proof fn lemma_zero_read(s: u32, n: u32)
    by (bit_vector)
    ensures
        read_bits(0u32, s, n) == 0,
{
}

/// A write that only touches bits `[shift, shift + n)` leaves every
/// disjoint read unchanged.
proof fn lemma_read_same_block(b_old: u32, b_new: u32, sw: u32, nw: u32, sr: u32, nr: u32)
    by (bit_vector)
    requires
        sw + nw <= 32,
        sr + nr <= 32,
        sr + nr <= sw || sw + nw <= sr,
        b_new & !(mask_of(nw) << sw) == b_old & !(mask_of(nw) << sw),
    ensures
        read_bits(b_new, sr, nr) == read_bits(b_old, sr, nr),
{
}

/// Splitting a `w`-bit value into its top `rem` and bottom `left` bits and
/// reassembling gives the value back.
proof fn lemma_split_value(val: u32, w: u32, rem: u32, left: u32)
    by (bit_vector)
    requires
        1 <= rem,
        1 <= left,
        rem + left == w,
        w <= 32,
        val <= mask_of(w),
    ensures
        (val >> left) <= mask_of(rem),
        (val & mask_of(left)) <= mask_of(left),
        ((val >> left) << left) | (val & mask_of(left)) == val,
{
}

/// A value reassembled from a `rem`-bit and a `left`-bit part fits in
/// `w = rem + left` bits.
proof fn lemma_parts_bound(lo: u32, up: u32, w: u32, rem: u32, left: u32)
    by (bit_vector)
    requires
        1 <= rem,
        1 <= left,
        rem + left == w,
        w <= 32,
        lo <= mask_of(rem),
        up <= mask_of(left),
    ensures
        ((lo << left) | up) <= mask_of(w),
        ((lo << left) | up) >> left == lo,
        ((lo << left) | up) & mask_of(left) == up,
{
}

/// Computes `mask_of(n)`.
pub fn mask_of_exec(n: u32) -> (r: u32)
    requires
        n <= 32,
    ensures
        r == mask_of(n),
{
    if n == 0 {
        0
    } else {
        let r = u32::MAX >> (32 - n);
        proof {
            assert(n != 0 && n <= 32 ==> (u32::MAX >> ((32 - n) as u32)) == mask_of(n))
                by (bit_vector);
        }
        r
    }
}

/// Overwrites bits `[shift, shift + n)` of `b` with `val`, leaving the
/// other bits of the block alone.
fn write_bits(b: u32, shift: u32, n: u32, val: u32) -> (r: u32)
    requires
        1 <= n,
        shift + n <= 32,
        val <= mask_of(n),
    ensures
        read_bits(r, shift, n) == val,
        r & !(mask_of(n) << shift) == b & !(mask_of(n) << shift),
{
    let m = mask_of_exec(n);
    let r = (b & !(m << shift)) | (val << shift);
    proof {
        assert((1 <= n && shift + n <= 32 && val <= mask_of(n) && r == (b & !(mask_of(n) << shift))
            | (val << shift)) ==> (read_bits(r, shift, n) == val && (r & !(mask_of(n) << shift)) == (
        b & !(mask_of(n) << shift)))) by (bit_vector);
    }
    r
}

impl ValueVec {
    /// The struct is internally consistent: width in range, mask matching,
    /// and enough whole blocks to hold `count * bits_per_val` bits.
    pub open spec fn wf(self) -> bool {
        &&& 1 <= self.bits_per_val <= 32
        &&& self.mask == mask_of(self.bits_per_val as u32)
        &&& self.count * self.bits_per_val + 31 <= usize::MAX
        &&& self.blocks@.len() == (self.count * self.bits_per_val + 31) / 32
        &&& self.count * self.bits_per_val <= self.blocks@.len() * 32
    }

    /// A `ValueVec` of `count` zero values of `bits_per_val` bits each.
    pub fn new(bits_per_val: usize, count: usize) -> (r: ValueVec)
        requires
            1 <= bits_per_val <= 32,
            count * bits_per_val + 31 <= usize::MAX,
        ensures
            r.wf(),
            r.bits_per_val == bits_per_val,
            r.count == count,
            r@ =~= Seq::new(count as nat, |i: int| 0u32),
    {
        proof {
            assert(count * bits_per_val >= 0) by (nonlinear_arith)
                requires
                    count >= 0,
                    bits_per_val >= 0,
            ;
        }
        let bits = count * bits_per_val;
        let nblocks = (bits + 31) / 32;
        let mut blocks: Vec<u32> = Vec::new();
        let mut k: usize = 0;
        while k < nblocks
            invariant
                blocks@.len() == k,
                k <= nblocks,
                forall|j: int| 0 <= j < k ==> blocks@[j] == 0u32,
            decreases nblocks - k,
        {
            blocks.push(0);
            k = k + 1;
        }
        let r = ValueVec { bits_per_val, mask: mask_of_exec(bits_per_val as u32), blocks, count };
        proof {
            vstd::arithmetic::div_mod::lemma_fundamental_div_mod(bits as int + 31, 32);
            assert(r.count * r.bits_per_val <= r.blocks@.len() * 32);
            assert forall|i: int| 0 <= i < count implies packed_get(
                r.blocks@,
                bits_per_val as int,
                i,
            ) == 0u32 by {
                lemma_cell_in_range(r.blocks@.len() as int, bits_per_val as int, count as int, i);
                let p = i * (bits_per_val as int);
                let off = p % 32;
                if off + bits_per_val <= 32 {
                    lemma_zero_read((32 - off - bits_per_val) as u32, bits_per_val as u32);
                } else {
                    let rem = 32 - off;
                    let left = bits_per_val - rem;
                    let leftu: u32 = left as u32;
                    lemma_zero_read(0, rem as u32);
                    lemma_zero_read((32 - left) as u32, leftu);
                    assert(((0u32 << leftu) | 0u32) == 0u32) by (bit_vector);
                }
            }
        }
        r
    }

    /// A `ValueVec` that can hold `count` values up to `max_val`
    /// (inclusive): the width is the bit length of `max_val`.
    pub fn with_max(max_val: u32, count: usize) -> (r: ValueVec)
        requires
            1 <= max_val,
            count * 32 + 31 <= usize::MAX,
        ensures
            r.wf(),
            r.bits_per_val == bit_length(max_val),
            r.count == count,
            max_val <= r.mask,
            r@ =~= Seq::new(count as nat, |i: int| 0u32),
    {
        proof {
            vstd::arithmetic::power2::lemma2_to64();
            lemma_bit_length_le(max_val, 32);
            lemma_bit_length_covers(max_val);
        }
        let mut w: usize = 0;
        let mut cur: u32 = max_val;
        while cur > 0
            invariant
                w + bit_length(cur) == bit_length(max_val),
                bit_length(max_val) <= 32,
                w <= 32,
            decreases cur,
        {
            proof {
                lemma_bit_length_nonneg(cur / 2);
            }
            w = w + 1;
            cur = cur / 2;
        }
        proof {
            lemma_bit_length_nonneg(cur);
        }
        proof {
            assert(count * w <= count * 32) by (nonlinear_arith)
                requires
                    w <= 32,
                    count >= 0,
            ;
        }
        ValueVec::new(w, count)
    }

    /// How many bits each value uses.
    pub fn bits_per_val(&self) -> (r: usize)
        ensures
            r == self.bits_per_val,
    {
        self.bits_per_val
    }

    /// The largest value a cell can hold.
    pub fn max_value(&self) -> (r: u32)
        ensures
            r == self.mask,
    {
        self.mask
    }

    /// The total number of bits in use.
    pub fn len(&self) -> (r: usize)
        requires
            self.wf(),
        ensures
            r == self.count * self.bits_per_val,
    {
        proof {
            assert(self.count * self.bits_per_val <= usize::MAX);
        }
        self.count * self.bits_per_val
    }

    /// The number of values.
    pub fn num_vals(&self) -> (r: usize)
        ensures
            r == self.count,
    {
        self.count
    }

    /// Resets every value to 0.
    pub fn clear(&mut self)
        requires
            old(self).wf(),
        ensures
            final(self).wf(),
            final(self).bits_per_val == old(self).bits_per_val,
            final(self).mask == old(self).mask,
            final(self).count == old(self).count,
            final(self)@ =~= Seq::new(old(self).count as nat, |i: int| 0u32),
    {
        let fresh = ValueVec::new(self.bits_per_val, self.count);
        *self = fresh;
    }

    /// The value stored at index `i`.
    pub fn get(&self, i: usize) -> (r: u32)
        requires
            self.wf(),
            i < self.count,
        ensures
            r == self@[i as int],
            r <= self.mask,
    {
        proof {
            lemma_cell_in_range(
                self.blocks@.len() as int,
                self.bits_per_val as int,
                self.count as int,
                i as int,
            );
        }
        let w = self.bits_per_val;
        let p = i * w;
        let off = p % 32;
        let b0 = p / 32;
        let rem = 32 - off;
        if rem >= w {
            let r = (self.blocks[b0] >> ((rem - w) as u32)) & self.mask;
            proof {
                lemma_and_le(self.blocks@[b0 as int] >> ((rem - w) as u32), self.mask);
            }
            r
        } else {
            let left = w - rem;
            let lo = self.blocks[b0] & mask_of_exec(rem as u32);
            let up = (self.blocks[b0 + 1] >> ((32 - left) as u32)) & mask_of_exec(left as u32);
            let r = (lo << (left as u32)) | up;
            proof {
                lemma_shr0(self.blocks@[b0 as int], mask_of(rem as u32));
                lemma_and_le(self.blocks@[b0 as int], mask_of(rem as u32));
                lemma_and_le(
                    self.blocks@[b0 as int + 1] >> ((32 - left) as u32),
                    mask_of(left as u32),
                );
                lemma_parts_bound(lo, up, w as u32, rem as u32, left as u32);
            }
            r
        }
    }

    /// Stores `val` at index `i`; every other value is unchanged.
    pub fn set(&mut self, i: usize, val: u32)
        requires
            old(self).wf(),
            i < old(self).count,
            val <= old(self).mask,
        ensures
            final(self).wf(),
            final(self).bits_per_val == old(self).bits_per_val,
            final(self).mask == old(self).mask,
            final(self).count == old(self).count,
            final(self)@ =~= old(self)@.update(i as int, val),
    {
        proof {
            lemma_cell_in_range(
                self.blocks@.len() as int,
                self.bits_per_val as int,
                self.count as int,
                i as int,
            );
        }
        let w = self.bits_per_val;
        let p = i * w;
        let off = p % 32;
        let b0 = p / 32;
        let rem = 32 - off;
        let ghost oldblocks = self.blocks@;
        if rem >= w {
            let nb = write_bits(self.blocks[b0], (rem - w) as u32, w as u32, val);
            self.blocks.set(b0, nb);
            proof {
                assert(packed_get(self.blocks@, w as int, i as int) == val);
                self.lemma_set_frame(oldblocks, i as int, val, b0 as int, (rem - w) as u32,
                    w as u32, b0 as int, (rem - w) as u32, w as u32);
            }
        } else {
            let left = w - rem;
            proof {
                lemma_split_value(val, w as u32, rem as u32, left as u32);
            }
            let lowerval = val >> (left as u32);
            let nb0 = write_bits(self.blocks[b0], 0, rem as u32, lowerval);
            self.blocks.set(b0, nb0);
            let upval = val & mask_of_exec(left as u32);
            let nb1 = write_bits(self.blocks[b0 + 1], (32 - left) as u32, left as u32, upval);
            self.blocks.set(b0 + 1, nb1);
            proof {
                assert(read_bits(self.blocks@[b0 as int], 0, rem as u32) == lowerval);
                assert(read_bits(self.blocks@[b0 as int + 1], (32 - left) as u32, left as u32)
                    == upval);
                assert(packed_get(self.blocks@, w as int, i as int) == ((lowerval << (
                left as u32)) | upval));
                assert(packed_get(self.blocks@, w as int, i as int) == val);
                self.lemma_set_frame(oldblocks, i as int, val, b0 as int, 0, rem as u32,
                    b0 as int + 1, (32 - left) as u32, left as u32);
            }
        }
    }

    /// After writing the part(s) of cell `i`, cell `i` holds `val` and every
    /// other cell reads the same bits as before.
    proof fn lemma_set_frame(
        &self,
        oldblocks: Seq<u32>,
        i: int,
        val: u32,
        wb1: int,
        ws1: u32,
        wn1: u32,
        wb2: int,
        ws2: u32,
        wn2: u32,
    )
        requires
            self.wf(),
            0 <= i < self.count,
            val <= self.mask,
            oldblocks.len() == self.blocks@.len(),
            // the written parts are exactly the parts of cell i
            cell_parts_eq(self.bits_per_val as int, i, wb1, ws1 as int, wn1 as int, wb2,
                ws2 as int, wn2 as int),
            // block store changed only at the written parts
            forall|b: int|
                0 <= b < oldblocks.len() && b != wb1 && b != wb2 ==> self.blocks@[b]
                    == oldblocks[b],
            wn1 >= 1,
            ws1 + wn1 <= 32,
            wn2 >= 1,
            ws2 + wn2 <= 32,
            self.blocks@[wb1] & !(mask_of(wn1) << ws1) == oldblocks[wb1] & !(mask_of(wn1) << ws1),
            wb1 != wb2 ==> self.blocks@[wb2] & !(mask_of(wn2) << ws2) == oldblocks[wb2] & !(
            mask_of(wn2) << ws2),
            read_bits_of_cell(self.blocks@, self.bits_per_val as int, i) == val,
        ensures
            Seq::new(
                self.count as nat,
                |j: int| packed_get(self.blocks@, self.bits_per_val as int, j),
            ) =~= Seq::new(
                self.count as nat,
                |j: int| packed_get(oldblocks, self.bits_per_val as int, j),
            ).update(i, val),
    {
        let w = self.bits_per_val as int;
        let nb = self.blocks@;
        assert(packed_get(nb, w, i) == val) by {
            lemma_cell_parts(self.blocks@.len() as int, w, self.count as int, i);
        };
        assert forall|j: int| 0 <= j < self.count && j != i implies packed_get(nb, w, j)
            == packed_get(oldblocks, w, j) by {
            lemma_cell_frame(oldblocks, nb, w, self.count as int, i, j, wb1, ws1, wn1, wb2, ws2,
                wn2);
        }
    }
}

/// The number of bits needed to store `v`.
pub open spec fn bit_length(v: u32) -> int
    decreases v,
{
    if v == 0 {
        0
    } else {
        1 + bit_length(v / 2)
    }
}

/// Bit lengths are nonnegative.
proof fn lemma_bit_length_nonneg(v: u32)
    ensures
        bit_length(v) >= 0,
    decreases v,
{
    if v == 0 {
    } else {
        lemma_bit_length_nonneg(v / 2);
    }
}

/// A value below `pow2(k)` needs at most `k` bits.
proof fn lemma_bit_length_below(v: u32, k: nat)
    requires
        v < vstd::arithmetic::power2::pow2(k),
    ensures
        bit_length(v) <= k,
    decreases k,
{
    if v == 0 {
    } else {
        assert(k >= 1) by {
            if k == 0 {
                assert(vstd::arithmetic::power2::pow2(0) == 1) by {
                    vstd::arithmetic::power2::lemma2_to64();
                };
            }
        };
        vstd::arithmetic::power2::lemma_pow2_unfold(k);
        let p = vstd::arithmetic::power2::pow2((k - 1) as nat);
        assert(p >= 1) by {
            vstd::arithmetic::power2::lemma_pow2_pos((k - 1) as nat);
        };
        assert((v as int) / 2 < p) by (nonlinear_arith)
            requires
                v < 2 * p,
                p >= 1,
        ;
        lemma_bit_length_below(v / 2, (k - 1) as nat);
    }
}

/// Every `u32` fits in 32 bits.
proof fn lemma_bit_length_le(v: u32, k: nat)
    requires
        k == 32,
    ensures
        bit_length(v) <= 32,
{
    vstd::arithmetic::power2::lemma2_to64();
    lemma_bit_length_below(v, 32);
}

/// The mask of `bit_length(v)` bits covers `v`.
proof fn lemma_bit_length_covers(v: u32)
    ensures
        v <= mask_of(bit_length(v) as u32),
    decreases v,
{
    if v == 0 {
    } else {
        lemma_bit_length_covers(v / 2);
        lemma_bit_length_le(v, 32);
        lemma_bit_length_nonneg(v / 2);
        let b = bit_length(v);
        assert(1 <= b <= 32);
        let bu: u32 = b as u32;
        assert(mask_of(bu) == 2 * mask_of((bu - 1) as u32) + 1) by (bit_vector)
            requires
                1 <= bu <= 32,
        ;
        assert(v <= 2 * (v / 2) + 1);
    }
}

/// Whether `(wb1, ws1, wn1)` and `(wb2, ws2, wn2)` are exactly the block
/// parts cell `i` of width `w` occupies (both equal for a one-block cell).
pub open spec fn cell_parts_eq(
    w: int,
    i: int,
    wb1: int,
    ws1: int,
    wn1: int,
    wb2: int,
    ws2: int,
    wn2: int,
) -> bool {
    let p = i * w;
    let b0 = p / 32;
    let off = p % 32;
    if off + w <= 32 {
        wb1 == b0 && ws1 == 32 - off - w && wn1 == w && wb2 == wb1 && ws2 == ws1 && wn2 == wn1
    } else {
        let rem = 32 - off;
        let left = w - rem;
        wb1 == b0 && ws1 == 0 && wn1 == rem && wb2 == b0 + 1 && ws2 == 32 - left && wn2 == left
    }
}

/// The value cell `i` reads from the block store (same as `packed_get`,
/// spelled out for the frame lemma).
pub open spec fn read_bits_of_cell(blocks: Seq<u32>, w: int, i: int) -> u32 {
    packed_get(blocks, w, i)
}

/// Bounds of the blocks a cell touches: they are inside the store.
proof fn lemma_cell_in_range(nblocks: int, w: int, count: int, i: int)
    requires
        1 <= w <= 32,
        0 <= i < count,
        count * w <= nblocks * 32,
    ensures
        0 <= i * w,
        i * w + w <= count * w,
        (i * w) / 32 < nblocks,
        (i * w) % 32 + w > 32 ==> (i * w) / 32 + 1 < nblocks,
        i * w == 32 * ((i * w) / 32) + (i * w) % 32,
{
    let p = i * w;
    assert(0 <= i * w && i * w + w <= count * w) by (nonlinear_arith)
        requires
            1 <= w,
            0 <= i,
            i < count,
    ;
    vstd::arithmetic::div_mod::lemma_fundamental_div_mod(p, 32);
    let b0 = p / 32;
    let off = p % 32;
    assert(p < nblocks * 32);
    assert(b0 < nblocks) by (nonlinear_arith)
        requires
            p < nblocks * 32,
            p == 32 * b0 + off,
            0 <= off < 32,
    ;
    if off + w > 32 {
        assert(32 * (b0 + 1) < p + w);
        assert(b0 + 1 < nblocks) by (nonlinear_arith)
            requires
                32 * (b0 + 1) < p + w,
                p + w <= nblocks * 32,
        ;
    }
}

/// Basic facts about the parts of one cell, used to relate the written
/// parts back to `packed_get`.
proof fn lemma_cell_parts(nblocks: int, w: int, count: int, i: int)
    requires
        1 <= w <= 32,
        0 <= i < count,
        count * w <= nblocks * 32,
    ensures
        ((i * w) % 32) + w > 32 ==> (i * w + (32 - (i * w) % 32)) == 32 * ((i * w) / 32 + 1),
{
    lemma_cell_in_range(nblocks, w, count, i);
}

/// Cells other than the written one read the same bits before and after.
proof fn lemma_cell_frame(
    ob: Seq<u32>,
    nb: Seq<u32>,
    w: int,
    count: int,
    i: int,
    j: int,
    wb1: int,
    ws1: u32,
    wn1: u32,
    wb2: int,
    ws2: u32,
    wn2: u32,
)
    requires
        1 <= w <= 32,
        0 <= i < count,
        0 <= j < count,
        j != i,
        ob.len() == nb.len(),
        count * w <= ob.len() * 32,
        cell_parts_eq(w, i, wb1, ws1 as int, wn1 as int, wb2, ws2 as int, wn2 as int),
        forall|b: int| 0 <= b < ob.len() && b != wb1 && b != wb2 ==> nb[b] == ob[b],
        wn1 >= 1,
        ws1 + wn1 <= 32,
        wn2 >= 1,
        ws2 + wn2 <= 32,
        nb[wb1] & !(mask_of(wn1) << ws1) == ob[wb1] & !(mask_of(wn1) << ws1),
        wb1 != wb2 ==> nb[wb2] & !(mask_of(wn2) << ws2) == ob[wb2] & !(mask_of(wn2) << ws2),
    ensures
        packed_get(nb, w, j) == packed_get(ob, w, j),
{
    lemma_cell_in_range(ob.len() as int, w, count, i);
    lemma_cell_in_range(ob.len() as int, w, count, j);
    let p = i * w;
    let pj = j * w;
    // The cells' global bit ranges are disjoint.
    if j < i {
        assert(pj + w <= p) by (nonlinear_arith)
            requires
                j + 1 <= i,
                1 <= w,
                pj == j * w,
                p == i * w,
        ;
    } else {
        assert(p + w <= pj) by (nonlinear_arith)
            requires
                i + 1 <= j,
                1 <= w,
                pj == j * w,
                p == i * w,
        ;
    }
    let bj = pj / 32;
    let offj = pj % 32;
    if offj + w <= 32 {
        // One part: block bj, shift 32 - offj - w, width w.
        lemma_part_preserved(ob, nb, bj, (32 - offj - w) as u32, w as u32, p, i * w + w, wb1, ws1,
            wn1, wb2, ws2, wn2);
    } else {
        let rem = 32 - offj;
        let left = w - rem;
        lemma_part_preserved(ob, nb, bj, 0, rem as u32, p, i * w + w, wb1, ws1, wn1, wb2, ws2,
            wn2);
        lemma_part_preserved(ob, nb, bj + 1, (32 - left) as u32, left as u32, p, i * w + w, wb1,
            ws1, wn1, wb2, ws2, wn2);
    }
}

/// A read part whose global bit range lies outside `[wlo, whi)` (the global
/// range of the written cell) is unchanged by the write parts.
proof fn lemma_part_preserved(
    ob: Seq<u32>,
    nb: Seq<u32>,
    rb: int,
    rs: u32,
    rn: u32,
    wlo: int,
    whi: int,
    wb1: int,
    ws1: u32,
    wn1: u32,
    wb2: int,
    ws2: u32,
    wn2: u32,
)
    requires
        ob.len() == nb.len(),
        0 <= rb < ob.len(),
        rn >= 1,
        rs + rn <= 32,
        wn1 >= 1,
        ws1 + wn1 <= 32,
        wn2 >= 1,
        ws2 + wn2 <= 32,
        // global range of the read part is disjoint from [wlo, whi)
        32 * rb + 32 - rs <= wlo || whi <= 32 * rb + 32 - rs - rn,
        // written parts cover [wlo, whi) and sit at their stated spots
        32 * wb1 + 32 - ws1 - wn1 == wlo,
        32 * wb2 + 32 - ws2 == whi,
        wb1 == wb2 ==> ws2 == ws1 && wn1 == wn2 && 32 * wb1 + 32 - ws1 == whi,
        wb1 != wb2 ==> wb2 == wb1 + 1 && ws1 == 0 && 32 * wb2 + 32 - ws2 - wn2 == 32 * wb2,
        forall|b: int| 0 <= b < ob.len() && b != wb1 && b != wb2 ==> nb[b] == ob[b],
        nb[wb1] & !(mask_of(wn1) << ws1) == ob[wb1] & !(mask_of(wn1) << ws1),
        wb1 != wb2 ==> nb[wb2] & !(mask_of(wn2) << ws2) == ob[wb2] & !(mask_of(wn2) << ws2),
    ensures
        read_bits(nb[rb], rs, rn) == read_bits(ob[rb], rs, rn),
{
    if rb != wb1 && rb != wb2 {
        assert(nb[rb] == ob[rb]);
    } else if rb == wb1 {
        // Same block as the first written part: shift ranges are disjoint.
        assert(rs + rn <= ws1 || ws1 + wn1 <= rs);
        lemma_read_same_block(ob[rb], nb[rb], ws1, wn1, rs, rn);
        if wb1 == wb2 {
        } else {
            // the second part lives in the next block, so it cannot touch rb
        }
    } else {
        assert(rb == wb2 && wb1 != wb2);
        assert(rs + rn <= ws2 || ws2 + wn2 <= rs);
        lemma_read_same_block(ob[rb], nb[rb], ws2, wn2, rs, rn);
    }
}

} // verus!
