//! A bit cursor that hands out the bits of a byte slice most-significant
//! bit first, as the Huffman decompressor consumes them.
//!
//! For the bytes `A B C ...` the bits come in the order
//! `A7 A6 .. A0 B7 B6 .. B0 C7 ..`, and a read of `n` bits packs the first bit
//! it takes into bit `n - 1` of the result.

use vstd::prelude::*;
use vstd::arithmetic::power2::*;
use vstd::arithmetic::div_mod::*;
use vstd::arithmetic::mul::*;
use vstd::bits::*;

verus! {

/// Bit `i` of the stream (0 or 1): bit `7 - i % 8` of byte `i / 8`.
pub open spec fn msb_bit(data: Seq<u8>, i: int) -> nat {
    ((data[i / 8] as nat) / pow2((7 - i % 8) as nat)) % 2
}

/// The number formed by the `n` bits from bit `pos` on, the earliest bit
/// standing highest.
pub open spec fn msb_value(data: Seq<u8>, pos: int, n: nat) -> nat
    decreases n,
{
    if n == 0 {
        0
    } else {
        2 * msb_value(data, pos, (n - 1) as nat) + msb_bit(data, pos + n - 1)
    }
}

/// A value of `n` bits is below `2^n`.
pub proof fn lemma_msb_value_bound(data: Seq<u8>, pos: int, n: nat)
    ensures
        msb_value(data, pos, n) < pow2(n),
    decreases n,
{
    if n == 0 {
        lemma2_to64();
    } else {
        lemma_msb_value_bound(data, pos, (n - 1) as nat);
        lemma_pow2_unfold(n);
    }
}

/// Reading `a + b` bits is reading `a` bits and then `b` bits, the earlier
/// bits standing above the later ones.
pub proof fn lemma_msb_value_split(data: Seq<u8>, pos: int, a: nat, b: nat)
    ensures
        msb_value(data, pos, a + b) == msb_value(data, pos, a) * pow2(b) + msb_value(
            data,
            pos + a,
            b,
        ),
    decreases b,
{
    if b == 0 {
        lemma2_to64();
    } else {
        lemma_msb_value_split(data, pos, a, (b - 1) as nat);
        lemma_pow2_unfold(b);
        let head = msb_value(data, pos, a) as int;
        assert((a + b - 1) as nat == a + (b - 1) as nat);
        assert(2 * (head * pow2((b - 1) as nat)) == head * pow2(b)) by {
            lemma_mul_is_associative(head, pow2((b - 1) as nat) as int, 2);
            lemma_mul_is_commutative(2, head * pow2((b - 1) as nat));
            lemma_mul_is_commutative(2, pow2((b - 1) as nat) as int);
        }
    }
}

/// Eight bits from a byte boundary are that byte.
pub proof fn lemma_msb_value_byte(data: Seq<u8>, index: int)
    requires
        0 <= index < data.len(),
    ensures
        msb_value(data, 8 * index, 8) == data[index] as nat,
{
    let b = data[index];
    let p = 8 * index;
    assert forall|j: int| 0 <= j < 8 implies #[trigger] msb_bit(data, p + j) == ((b as nat) / pow2(
        (7 - j) as nat,
    )) % 2 by {
        assert((p + j) / 8 == index);
        assert((p + j) % 8 == j);
    }
    lemma2_to64();
    reveal_with_fuel(msb_value, 9);
    assert(msb_bit(data, p + 0) == (b as nat / 128) % 2);
    assert(msb_bit(data, p + 1) == (b as nat / 64) % 2);
    assert(msb_bit(data, p + 2) == (b as nat / 32) % 2);
    assert(msb_bit(data, p + 3) == (b as nat / 16) % 2);
    assert(msb_bit(data, p + 4) == (b as nat / 8) % 2);
    assert(msb_bit(data, p + 5) == (b as nat / 4) % 2);
    assert(msb_bit(data, p + 6) == (b as nat / 2) % 2);
    assert(msb_bit(data, p + 7) == (b as nat / 1) % 2);
    assert(b as nat == 2 * (2 * (2 * (2 * (2 * (2 * (2 * ((b as nat / 128) % 2) + (b as nat / 64)
        % 2) + (b as nat / 32) % 2) + (b as nat / 16) % 2) + (b as nat / 8) % 2) + (b as nat / 4)
        % 2) + (b as nat / 2) % 2) + (b as nat / 1) % 2) by (bit_vector);
}

/// The results of reading `widths[0]` bits, then `widths[1]` bits, and so on,
/// starting at bit `pos`.
pub open spec fn msb_reads(data: Seq<u8>, pos: int, widths: Seq<nat>) -> Seq<nat>
    decreases widths.len(),
{
    if widths.len() == 0 {
        Seq::empty()
    } else {
        seq![msb_value(data, pos, widths[0])] + msb_reads(
            data,
            pos + widths[0],
            widths.drop_first(),
        )
    }
}

/// The sum of the widths.
pub open spec fn total_width(widths: Seq<nat>) -> nat
    decreases widths.len(),
{
    if widths.len() == 0 {
        0
    } else {
        widths[0] + total_width(widths.drop_first())
    }
}

/// The `n` low bits of `value`, bit `n - 1` first.
pub open spec fn high_first_bits(value: nat, n: nat) -> Seq<nat> {
    Seq::new(n, |j: int| (value / pow2((n - 1 - j) as nat)) % 2)
}

/// The low `widths[i]` bits of each `values[i]`, highest first, laid end to
/// end.
pub open spec fn unpack_reads(values: Seq<nat>, widths: Seq<nat>) -> Seq<nat>
    decreases widths.len(),
{
    if widths.len() == 0 || values.len() == 0 {
        Seq::empty()
    } else {
        high_first_bits(values[0], widths[0]) + unpack_reads(
            values.drop_first(),
            widths.drop_first(),
        )
    }
}

/// The `n` bits of the stream from bit `pos` on, in stream order.
pub open spec fn msb_stream_bits(data: Seq<u8>, pos: int, n: nat) -> Seq<nat> {
    Seq::new(n, |j: int| msb_bit(data, pos + j))
}

/// The `j`-th bit taken by a read of `n` bits is bit `pos + j` of the stream.
pub proof fn lemma_msb_value_bit(data: Seq<u8>, pos: int, n: nat, j: nat)
    requires
        j < n,
    ensures
        (msb_value(data, pos, n) / pow2((n - 1 - j) as nat)) % 2 == msb_bit(data, pos + j),
    decreases n,
{
    let head = msb_value(data, pos, (n - 1) as nat);
    let value = msb_value(data, pos, n);
    assert(value == 2 * head + msb_bit(data, pos + n - 1));
    lemma2_to64();
    if j == n - 1 {
        assert(pow2((n - 1 - j) as nat) == 1);
        assert(value % 2 == msb_bit(data, pos + n - 1));
    } else {
        lemma_msb_value_bit(data, pos, (n - 1) as nat, j);
        let e = (n - 1 - j) as nat;
        assert(((n - 1) as nat - 1 - j) as nat == (e - 1) as nat);
        lemma_pow2_unfold(e);
        lemma_pow2_pos((e - 1) as nat);
        assert(value / 2 == head);
        assert(value / pow2(e) == head / pow2((e - 1) as nat)) by {
            lemma_div_denominator(value as int, 2, pow2((e - 1) as nat) as int);
        }
        assert((head / pow2((e - 1) as nat)) % 2 == msb_bit(data, pos + j));
    }
}

/// Sequential reads give back the stream bit for bit: for any bytes and any
/// widths between 1 and 16 whose sum fits into the bytes, unpacking the values
/// read from bit 0 on yields the stream's bits in their order.
pub proof fn lemma_msb_reads_round_trip(data: Seq<u8>, widths: Seq<nat>)
    requires
        forall|i: int| 0 <= i < widths.len() ==> 1 <= #[trigger] widths[i] <= 16,
        total_width(widths) <= 8 * data.len(),
    ensures
        unpack_reads(msb_reads(data, 0, widths), widths) == msb_stream_bits(
            data,
            0,
            total_width(widths),
        ),
{
    lemma_msb_reads_from(data, 0, widths);
}

/// The round trip from any starting bit.
pub proof fn lemma_msb_reads_from(data: Seq<u8>, pos: int, widths: Seq<nat>)
    ensures
        msb_reads(data, pos, widths).len() == widths.len(),
        unpack_reads(msb_reads(data, pos, widths), widths) == msb_stream_bits(
            data,
            pos,
            total_width(widths),
        ),
    decreases widths.len(),
{
    let reads = msb_reads(data, pos, widths);
    if widths.len() == 0 {
        assert(unpack_reads(reads, widths) =~= msb_stream_bits(data, pos, 0));
    } else {
        let w = widths[0];
        let tail = widths.drop_first();
        lemma_msb_reads_from(data, pos + w, tail);
        let tail_reads = msb_reads(data, pos + w, tail);
        assert(reads.drop_first() =~= tail_reads);
        assert(reads[0] == msb_value(data, pos, w));
        assert forall|j: int| 0 <= j < w implies #[trigger] high_first_bits(reads[0], w)[j]
            == msb_bit(data, pos + j) by {
            lemma_msb_value_bit(data, pos, w, j as nat);
        }
        assert(unpack_reads(reads, widths) =~= msb_stream_bits(data, pos, total_width(widths)));
    }
}

/// The cursor: the slice, the index of the next byte to fetch, and the bits
/// that were fetched but not handed out yet.
pub struct BitStreamMSB<'a> {
    data: &'a [u8],
    index: usize,
    bit_buffer: usize,
    bits_in_buffer: usize,
}

impl<'a> BitStreamMSB<'a> {
    /// The bytes under the cursor.
    pub closed spec fn bytes(&self) -> Seq<u8> {
        self.data@
    }

    /// How many bits have been handed out so far.
    pub closed spec fn position(&self) -> int {
        8 * self.index - self.bits_in_buffer
    }

    /// The buffer holds exactly the fetched bits that are not handed out.
    pub closed spec fn wf(&self) -> bool {
        &&& self.index <= self.data@.len()
        &&& self.bits_in_buffer <= 8 * self.index
        &&& self.bits_in_buffer < 16
        &&& self.bit_buffer == msb_value(
            self.data@,
            8 * self.index - self.bits_in_buffer,
            self.bits_in_buffer as nat,
        )
    }

    /// A cursor at the first bit of `data`.
    pub fn new(data: &'a [u8]) -> (stream: Self)
        ensures
            stream.wf(),
            stream.bytes() == data@,
            stream.position() == 0,
    {
        BitStreamMSB { data, index: 0, bit_buffer: 0, bits_in_buffer: 0 }
    }

    /// How many bits are left to read.
    pub fn remaining_bits(&self) -> (left: u128)
        requires
            self.wf(),
        ensures
            left == 8 * self.bytes().len() - self.position(),
    {
        let bytes_left: u128 = (self.data.len() - self.index) as u128;
        8 * bytes_left + self.bits_in_buffer as u128
    }

    /// Takes the next `bits_wanted` bits; the first bit taken is the highest
    /// bit of the result.
    pub fn next(&mut self, bits_wanted: usize) -> (value: usize)
        requires
            old(self).wf(),
            1 <= bits_wanted <= 16,
            old(self).position() + bits_wanted <= 8 * old(self).bytes().len(),
        ensures
            final(self).wf(),
            final(self).bytes() == old(self).bytes(),
            final(self).position() == old(self).position() + bits_wanted,
            value == msb_value(old(self).bytes(), old(self).position(), bits_wanted as nat),
    {
        let ghost pos = self.position();
        // Fetch whole bytes until the buffer holds enough.
        while bits_wanted > self.bits_in_buffer
            invariant
                1 <= bits_wanted <= 16,
                self.data == old(self).data,
                self.index <= self.data@.len(),
                pos == 8 * self.index - self.bits_in_buffer,
                pos >= 0,
                pos + bits_wanted <= 8 * self.data@.len(),
                self.bits_in_buffer < 16 || self.bits_in_buffer < bits_wanted + 8,
                self.bit_buffer == msb_value(self.data@, pos, self.bits_in_buffer as nat),
            decreases self.data@.len() - self.index,
        {
            let byte = self.data[self.index];
            proof {
                let k = self.bits_in_buffer as nat;
                lemma_msb_value_split(self.data@, pos, k, 8);
                lemma_msb_value_byte(self.data@, self.index as int);
                lemma_msb_value_bound(self.data@, pos, k);
                lemma_pow2_strictly_increases(k, 16);
                lemma2_to64();
                lemma_usize_shl_is_mul(self.bit_buffer, 8usize);
            }
            self.index += 1;
            self.bit_buffer = (self.bit_buffer << 8) + byte as usize;
            self.bits_in_buffer += 8;
        }
        let bits_kept = self.bits_in_buffer - bits_wanted;
        proof {
            let k = self.bits_in_buffer as nat;
            let n = bits_wanted as nat;
            let m = bits_kept as nat;
            lemma2_to64();
            lemma_usize_shl_is_mul(1usize, bits_kept);
            lemma_pow2_strictly_increases(m, 17);
            lemma_pow2_pos(m);
            lemma_usize_low_bits_mask_is_mod(self.bit_buffer, m);
            lemma_usize_shr_is_div(self.bit_buffer, bits_kept);
            assert(n + m == k);
            lemma_msb_value_split(self.data@, pos, n, m);
            lemma_msb_value_bound(self.data@, pos + n, m);
            let high = msb_value(self.data@, pos, n) as int;
            let low = msb_value(self.data@, pos + n, m) as int;
            lemma_fundamental_div_mod_converse(self.bit_buffer as int, pow2(m) as int, high, low);
        }
        let value = self.bit_buffer >> bits_kept;
        self.bit_buffer = self.bit_buffer & ((1usize << bits_kept) - 1);
        self.bits_in_buffer = bits_kept;
        value
    }
}

} // verus!
