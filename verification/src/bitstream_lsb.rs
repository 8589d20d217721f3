//! A bit cursor that hands out the bits of a byte slice least-significant
//! bit first, as the LZW decompressor consumes them.
//!
//! For the bytes `A B C ...` the bits come in the order
//! `A0 A1 .. A7 B0 B1 .. B7 C0 ..`, and a read of `n` bits packs the first bit
//! it takes into bit 0 of the result.

use vstd::prelude::*;
use vstd::arithmetic::power2::*;
use vstd::arithmetic::div_mod::*;
use vstd::arithmetic::mul::*;
use vstd::bits::*;

verus! {

/// Bit `i` of the stream (0 or 1): bit `i % 8` of byte `i / 8`.
pub open spec fn lsb_bit(data: Seq<u8>, i: int) -> nat {
    ((data[i / 8] as nat) / pow2((i % 8) as nat)) % 2
}

/// The number whose bit `j` is bit `pos + j` of the stream, for `j < n`.
pub open spec fn lsb_value(data: Seq<u8>, pos: int, n: nat) -> nat
    decreases n,
{
    if n == 0 {
        0
    } else {
        lsb_bit(data, pos) + 2 * lsb_value(data, pos + 1, (n - 1) as nat)
    }
}

/// A value of `n` bits is below `2^n`.
pub proof fn lemma_lsb_value_bound(data: Seq<u8>, pos: int, n: nat)
    ensures
        lsb_value(data, pos, n) < pow2(n),
    decreases n,
{
    if n == 0 {
        lemma2_to64();
    } else {
        lemma_lsb_value_bound(data, pos + 1, (n - 1) as nat);
        lemma_pow2_unfold(n);
    }
}

/// Reading `a + b` bits is reading `a` bits and then `b` bits, the later
/// bits standing above the earlier ones.
pub proof fn lemma_lsb_value_split(data: Seq<u8>, pos: int, a: nat, b: nat)
    ensures
        lsb_value(data, pos, a + b) == lsb_value(data, pos, a) + pow2(a) * lsb_value(
            data,
            pos + a,
            b,
        ),
    decreases a,
{
    if a == 0 {
        lemma2_to64();
    } else {
        lemma_lsb_value_split(data, pos + 1, (a - 1) as nat, b);
        lemma_pow2_unfold(a);
        let rest = lsb_value(data, pos + a, b) as int;
        assert(2 * (pow2((a - 1) as nat) * rest) == pow2(a) * rest) by {
            lemma_mul_is_associative(2, pow2((a - 1) as nat) as int, rest);
        }
    }
}

/// Eight bits from a byte boundary are that byte.
pub proof fn lemma_lsb_value_byte(data: Seq<u8>, index: int)
    requires
        0 <= index < data.len(),
    ensures
        lsb_value(data, 8 * index, 8) == data[index] as nat,
{
    let b = data[index];
    let p = 8 * index;
    assert forall|j: int| 0 <= j < 8 implies #[trigger] lsb_bit(data, p + j) == ((b as nat) / pow2(
        j as nat,
    )) % 2 by {
        assert((p + j) / 8 == index);
        assert((p + j) % 8 == j);
    }
    lemma2_to64();
    reveal_with_fuel(lsb_value, 9);
    assert(lsb_bit(data, p + 0) == (b as nat / 1) % 2);
    assert(lsb_bit(data, p + 1) == (b as nat / 2) % 2);
    assert(lsb_bit(data, p + 2) == (b as nat / 4) % 2);
    assert(lsb_bit(data, p + 3) == (b as nat / 8) % 2);
    assert(lsb_bit(data, p + 4) == (b as nat / 16) % 2);
    assert(lsb_bit(data, p + 5) == (b as nat / 32) % 2);
    assert(lsb_bit(data, p + 6) == (b as nat / 64) % 2);
    assert(lsb_bit(data, p + 7) == (b as nat / 128) % 2);
    assert(b as nat == (b as nat / 1) % 2 + 2 * ((b as nat / 2) % 2 + 2 * ((b as nat / 4) % 2 + 2
        * ((b as nat / 8) % 2 + 2 * ((b as nat / 16) % 2 + 2 * ((b as nat / 32) % 2 + 2 * ((b as nat
        / 64) % 2 + 2 * ((b as nat / 128) % 2)))))))) by (bit_vector);
}

/// The results of reading `widths[0]` bits, then `widths[1]` bits, and so on,
/// starting at bit `pos`.
pub open spec fn lsb_reads(data: Seq<u8>, pos: int, widths: Seq<nat>) -> Seq<nat>
    decreases widths.len(),
{
    if widths.len() == 0 {
        Seq::empty()
    } else {
        seq![lsb_value(data, pos, widths[0])] + lsb_reads(
            data,
            pos + widths[0],
            widths.drop_first(),
        )
    }
}

/// The sum of the widths.
pub open spec fn total_width(widths: Seq<nat>) -> nat
    decreases widths.len(),
{
    if widths.len() == 0 {
        0
    } else {
        widths[0] + total_width(widths.drop_first())
    }
}

/// The `n` low bits of `value`, bit 0 first.
pub open spec fn low_bits(value: nat, n: nat) -> Seq<nat> {
    Seq::new(n, |j: int| (value / pow2(j as nat)) % 2)
}

/// The low `widths[i]` bits of each `values[i]`, laid end to end.
pub open spec fn unpack_reads(values: Seq<nat>, widths: Seq<nat>) -> Seq<nat>
    decreases widths.len(),
{
    if widths.len() == 0 || values.len() == 0 {
        Seq::empty()
    } else {
        low_bits(values[0], widths[0]) + unpack_reads(values.drop_first(), widths.drop_first())
    }
}

/// The `n` bits of the stream from bit `pos` on, in stream order.
pub open spec fn lsb_stream_bits(data: Seq<u8>, pos: int, n: nat) -> Seq<nat> {
    Seq::new(n, |j: int| lsb_bit(data, pos + j))
}

/// Bit `j` of a value read from the stream is bit `pos + j` of the stream.
pub proof fn lemma_lsb_value_bit(data: Seq<u8>, pos: int, n: nat, j: nat)
    requires
        j < n,
    ensures
        (lsb_value(data, pos, n) / pow2(j)) % 2 == lsb_bit(data, pos + j),
    decreases j,
{
    let rest = lsb_value(data, pos + 1, (n - 1) as nat);
    let value = lsb_value(data, pos, n);
    assert(value == lsb_bit(data, pos) + 2 * rest);
    lemma2_to64();
    if j == 0 {
    } else {
        lemma_lsb_value_bit(data, pos + 1, (n - 1) as nat, (j - 1) as nat);
        lemma_pow2_unfold(j);
        lemma_pow2_pos((j - 1) as nat);
        assert(value / 2 == rest);
        assert(value / pow2(j) == rest / pow2((j - 1) as nat)) by {
            lemma_div_denominator(value as int, 2, pow2((j - 1) as nat) as int);
        }
    }
}

/// Sequential reads give back the stream bit for bit: for any bytes and any
/// widths between 1 and 16 whose sum fits into the bytes, unpacking the values
/// read from bit 0 on yields the stream's bits in their order.
pub proof fn lemma_lsb_reads_round_trip(data: Seq<u8>, widths: Seq<nat>)
    requires
        forall|i: int| 0 <= i < widths.len() ==> 1 <= #[trigger] widths[i] <= 16,
        total_width(widths) <= 8 * data.len(),
    ensures
        unpack_reads(lsb_reads(data, 0, widths), widths) == lsb_stream_bits(
            data,
            0,
            total_width(widths),
        ),
{
    lemma_lsb_reads_from(data, 0, widths);
}

/// The round trip from any starting bit.
pub proof fn lemma_lsb_reads_from(data: Seq<u8>, pos: int, widths: Seq<nat>)
    ensures
        lsb_reads(data, pos, widths).len() == widths.len(),
        unpack_reads(lsb_reads(data, pos, widths), widths) == lsb_stream_bits(
            data,
            pos,
            total_width(widths),
        ),
    decreases widths.len(),
{
    let reads = lsb_reads(data, pos, widths);
    if widths.len() == 0 {
        assert(unpack_reads(reads, widths) =~= lsb_stream_bits(data, pos, 0));
    } else {
        let w = widths[0];
        let tail = widths.drop_first();
        lemma_lsb_reads_from(data, pos + w, tail);
        let tail_reads = lsb_reads(data, pos + w, tail);
        assert(reads.drop_first() =~= tail_reads);
        assert(reads[0] == lsb_value(data, pos, w));
        assert forall|j: int| 0 <= j < w implies #[trigger] low_bits(reads[0], w)[j] == lsb_bit(
            data,
            pos + j,
        ) by {
            lemma_lsb_value_bit(data, pos, w, j as nat);
        }
        assert(unpack_reads(reads, widths) =~= lsb_stream_bits(data, pos, total_width(widths)));
    }
}

/// The cursor: the slice, the index of the next byte to fetch, and the bits
/// that were fetched but not handed out yet.
pub struct BitStreamLSB<'a> {
    data: &'a [u8],
    index: usize,
    bit_buffer: usize,
    bits_in_buffer: usize,
}

impl<'a> BitStreamLSB<'a> {
    /// The bytes under the cursor.
    pub closed spec fn bytes(&self) -> Seq<u8> {
        self.data@
    }

    /// How many bits have been handed out so far.
    pub closed spec fn position(&self) -> int {
        8 * self.index - self.bits_in_buffer
    }

    /// The buffer holds exactly the fetched bits that are not handed out.
    pub closed spec fn wf(&self) -> bool {
        &&& self.index <= self.data@.len()
        &&& self.bits_in_buffer <= 8 * self.index
        &&& self.bits_in_buffer < 16
        &&& self.bit_buffer == lsb_value(
            self.data@,
            8 * self.index - self.bits_in_buffer,
            self.bits_in_buffer as nat,
        )
    }

    /// A cursor at the first bit of `data`.
    pub fn new(data: &'a [u8]) -> (stream: Self)
        ensures
            stream.wf(),
            stream.bytes() == data@,
            stream.position() == 0,
    {
        BitStreamLSB { data, index: 0, bit_buffer: 0, bits_in_buffer: 0 }
    }

    /// How many bits are left to read.
    pub fn remaining_bits(&self) -> (left: u128)
        requires
            self.wf(),
        ensures
            left == 8 * self.bytes().len() - self.position(),
    {
        let bytes_left: u128 = (self.data.len() - self.index) as u128;
        8 * bytes_left + self.bits_in_buffer as u128
    }

    /// Takes the next `bits_wanted` bits; the first bit taken is bit 0 of the
    /// result.
    pub fn next(&mut self, bits_wanted: usize) -> (value: usize)
        requires
            old(self).wf(),
            1 <= bits_wanted <= 16,
            old(self).position() + bits_wanted <= 8 * old(self).bytes().len(),
        ensures
            final(self).wf(),
            final(self).bytes() == old(self).bytes(),
            final(self).position() == old(self).position() + bits_wanted,
            value == lsb_value(old(self).bytes(), old(self).position(), bits_wanted as nat),
    {
        let ghost pos = self.position();
        // Fetch whole bytes until the buffer holds enough.
        while bits_wanted > self.bits_in_buffer
            invariant
                1 <= bits_wanted <= 16,
                self.data == old(self).data,
                self.index <= self.data@.len(),
                pos == 8 * self.index - self.bits_in_buffer,
                pos >= 0,
                pos + bits_wanted <= 8 * self.data@.len(),
                self.bits_in_buffer < 16 || self.bits_in_buffer < bits_wanted + 8,
                self.bit_buffer == lsb_value(self.data@, pos, self.bits_in_buffer as nat),
            decreases self.data@.len() - self.index,
        {
            let byte = self.data[self.index];
            proof {
                let k = self.bits_in_buffer as nat;
                lemma_lsb_value_split(self.data@, pos, k, 8);
                lemma_lsb_value_byte(self.data@, self.index as int);
                lemma_lsb_value_bound(self.data@, pos, k);
                lemma_pow2_strictly_increases(k, 16);
                lemma2_to64();
                assert(byte as int * pow2(k) <= 255 * pow2(k)) by {
                    lemma_mul_inequality(byte as int, 255, pow2(k) as int);
                }
                assert(pow2(k) * (byte as nat) == byte as int * pow2(k)) by {
                    lemma_mul_is_commutative(pow2(k) as int, byte as int);
                }
                lemma_usize_shl_is_mul(byte as usize, self.bits_in_buffer);
            }
            self.index += 1;
            self.bit_buffer += (byte as usize) << self.bits_in_buffer;
            self.bits_in_buffer += 8;
        }
        proof {
            let k = self.bits_in_buffer as nat;
            let n = bits_wanted as nat;
            lemma2_to64();
            lemma_usize_shl_is_mul(1usize, bits_wanted);
            lemma_pow2_strictly_increases(n, 17);
            lemma_pow2_pos(n);
            lemma_usize_low_bits_mask_is_mod(self.bit_buffer, n);
            lemma_usize_shr_is_div(self.bit_buffer, bits_wanted);
            lemma_lsb_value_split(self.data@, pos, n, (k - n) as nat);
            lemma_lsb_value_bound(self.data@, pos, n);
            let low = lsb_value(self.data@, pos, n) as int;
            let high = lsb_value(self.data@, pos + n, (k - n) as nat) as int;
            assert(n + (k - n) as nat == k);
            assert(pow2(n) * (high as nat) == high * pow2(n)) by {
                lemma_mul_is_commutative(pow2(n) as int, high);
            }
            assert(self.bit_buffer as int == high * pow2(n) + low);
            lemma_fundamental_div_mod_converse(
                self.bit_buffer as int,
                pow2(n) as int,
                high,
                low,
            );
        }
        let mask_for_bits_wanted = (1usize << bits_wanted) - 1;
        let value = self.bit_buffer & mask_for_bits_wanted;
        self.bit_buffer >>= bits_wanted;
        self.bits_in_buffer -= bits_wanted;
        value
    }
}

} // verus!
