//! LZW decompression with codes of 9 to 12 bits, read least-significant bit
//! first.
//!
//! Codes 0 to 255 stand for one byte, 256 resets the dictionary, 257 ends
//! the stream, and the codes from 258 on stand for strings. A string is not
//! stored: its dictionary entry points back into the output.

use vstd::prelude::*;
use vstd::arithmetic::power2::*;
use crate::bitstream_lsb::{BitStreamLSB, lsb_value};
use crate::error::DecodeError;

verus! {

/// The width of the first codes, and of the codes after a reset.
pub const INITIAL_CODE_BIT_LENGTH: usize = 9;

/// The first code that stands for a string.
pub const INITIAL_TABLE_SIZE: usize = 258;

/// The number of codes that 9 bits can tell apart.
pub const INITIAL_CODE_LIMIT: usize = 512;

/// The number of codes that the dictionary can hold.
pub const MAX_TABLE_SIZE: usize = 4096;

/// The code that resets the dictionary.
pub const RESET_CODE: usize = 256;

/// The code that ends the stream.
pub const END_CODE: usize = 257;

/// The decompressor between two codes.
pub struct LzwState {
    /// The output so far.
    pub out: Seq<u8>,
    /// The width in bits of the next code.
    pub width: nat,
    /// For each code from 258 on, where its string starts in the output and
    /// how long it is.
    pub entries: Seq<(nat, nat)>,
}

impl LzwState {
    /// The number of codes in use: the next code that gets an entry.
    pub open spec fn table_size(self) -> nat {
        258 + self.entries.len()
    }

    /// The width is one of 9 to 12, and the dictionary fits its 4096 slots.
    pub open spec fn wf(self) -> bool {
        9 <= self.width <= 12 && self.table_size() <= 4096
    }
}

/// The state before the first code.
pub open spec fn lzw_start() -> LzwState {
    LzwState { out: Seq::empty(), width: 9, entries: Seq::empty() }
}

/// The output after up to `count` bytes are copied to its end, one at a
/// time, from position `offset` on. The copy may run into bytes that it has
/// written itself, and it stops early once the output has `declared` bytes.
pub open spec fn lzw_copy(out: Seq<u8>, offset: int, count: nat, declared: nat) -> Seq<u8>
    decreases count,
{
    if count == 0 {
        out
    } else {
        let longer = out.push(out[offset]);
        if longer.len() >= declared {
            longer
        } else {
            lzw_copy(longer, offset + 1, (count - 1) as nat, declared)
        }
    }
}

/// The output after a code other than 256 and 257: a byte for a code up to
/// 255, the copy of a string for a code from 258 on.
pub open spec fn lzw_emit(s: LzwState, code: nat, declared: nat) -> Seq<u8> {
    if code <= 255 {
        s.out.push(code as u8)
    } else {
        let entry = s.entries[code - 258];
        lzw_copy(s.out, entry.0 as int, entry.1, declared)
    }
}

/// The state after a code other than 257. Code 256 empties the dictionary
/// and sets the width back to 9. Any other code is emitted and, unless the
/// dictionary is full, gets the next entry: the string just emitted and the
/// byte that will follow it. Before that the width grows by one if the
/// codes in use have reached what it can tell apart.
pub open spec fn lzw_step(s: LzwState, code: nat, declared: nat) -> LzwState {
    if code == 256 {
        LzwState { out: s.out, width: 9, entries: Seq::empty() }
    } else {
        let out = lzw_emit(s, code, declared);
        if s.table_size() >= 4096 {
            LzwState { out, ..s }
        } else {
            LzwState {
                out,
                width: if s.table_size() == pow2(s.width) && s.width < 12 {
                    s.width + 1
                } else {
                    s.width
                },
                entries: s.entries.push((s.out.len(), (out.len() - s.out.len() + 1) as nat)),
            }
        }
    }
}

/// What decompression gives from bit `pos` and state `s` on. It ends well
/// once the output has `declared` bytes. Before that, it fails with
/// `TruncatedInput` where the bits run out, with `CorruptDictionaryCode` on
/// a code that is not in use, and with `SizeMismatch` on the end code.
pub open spec fn lzw_run(src: Seq<u8>, pos: int, s: LzwState, declared: nat) -> Result<
    Seq<u8>,
    DecodeError,
>
    decreases 8 * src.len() - pos,
    when s.width > 0
{
    if s.out.len() >= declared {
        Ok(s.out)
    } else if pos + s.width > 8 * src.len() {
        Err(DecodeError::TruncatedInput)
    } else {
        let code = lsb_value(src, pos, s.width);
        if code >= s.table_size() {
            Err(DecodeError::CorruptDictionaryCode)
        } else if code == 257 {
            Err(DecodeError::SizeMismatch)
        } else {
            lzw_run(src, pos + s.width, lzw_step(s, code, declared), declared)
        }
    }
}

/// The codes that [`lzw_run`] reads, in order.
pub open spec fn lzw_codes(src: Seq<u8>, pos: int, s: LzwState, declared: nat) -> Seq<nat>
    decreases 8 * src.len() - pos,
    when s.width > 0
{
    if s.out.len() >= declared || pos + s.width > 8 * src.len() {
        Seq::empty()
    } else {
        let code = lsb_value(src, pos, s.width);
        if code >= s.table_size() || code == 257 {
            seq![code]
        } else {
            seq![code] + lzw_codes(src, pos + s.width, lzw_step(s, code, declared), declared)
        }
    }
}

/// What decompressing `src` to `declared` bytes gives.
pub open spec fn lzw_output(src: Seq<u8>, declared: nat) -> Result<Seq<u8>, DecodeError> {
    lzw_run(src, 0, lzw_start(), declared)
}

/// The bytes that literal codes stand for.
pub open spec fn literal_bytes(codes: Seq<nat>) -> Seq<u8> {
    Seq::new(codes.len(), |i: int| codes[i] as u8)
}

/// A step keeps the width within 9 to 12 and the dictionary within its
/// slots.
pub proof fn lemma_step_wf(s: LzwState, code: nat, declared: nat)
    requires
        s.wf(),
    ensures
        lzw_step(s, code, declared).wf(),
{
}

/// A stream of literal codes alone gives back those bytes: if every
/// code read is at most 255 and decompression ends well, the output is the
/// output so far and then the codes, byte for byte.
pub proof fn lemma_literals_verbatim(src: Seq<u8>, pos: int, s: LzwState, declared: nat)
    requires
        s.wf(),
        forall|i: int|
            0 <= i < lzw_codes(src, pos, s, declared).len() ==> lzw_codes(src, pos, s, declared)[i]
                <= 255,
    ensures
        lzw_run(src, pos, s, declared) matches Ok(out) ==> out == s.out + literal_bytes(
            lzw_codes(src, pos, s, declared),
        ),
    decreases 8 * src.len() - pos,
{
    let codes = lzw_codes(src, pos, s, declared);
    if s.out.len() >= declared || pos + s.width > 8 * src.len() {
        assert(s.out + literal_bytes(codes) =~= s.out);
    } else {
        let code = lsb_value(src, pos, s.width);
        assert(codes[0] == code);
        if code >= s.table_size() || code == 257 {
        } else {
            let next = lzw_step(s, code, declared);
            let rest = lzw_codes(src, pos + s.width, next, declared);
            assert(codes == seq![code] + rest);
            assert forall|i: int| 0 <= i < rest.len() implies rest[i] <= 255 by {
                assert(codes[i + 1] == rest[i]);
            }
            lemma_step_wf(s, code, declared);
            lemma_literals_verbatim(src, pos + s.width, next, declared);
            assert(next.out == s.out.push(code as u8));
            assert(next.out + literal_bytes(rest) =~= s.out + literal_bytes(codes));
        }
    }
}

/// A stream of literal codes alone decompresses to those codes as bytes.
pub proof fn lemma_literal_stream(src: Seq<u8>, declared: nat)
    requires
        forall|i: int|
            0 <= i < lzw_codes(src, 0, lzw_start(), declared).len() ==> lzw_codes(
                src,
                0,
                lzw_start(),
                declared,
            )[i] <= 255,
    ensures
        lzw_output(src, declared) matches Ok(out) ==> out == literal_bytes(
            lzw_codes(src, 0, lzw_start(), declared),
        ),
{
    lemma_literals_verbatim(src, 0, lzw_start(), declared);
    assert(Seq::<u8>::empty() + literal_bytes(lzw_codes(src, 0, lzw_start(), declared))
        =~= literal_bytes(lzw_codes(src, 0, lzw_start(), declared)));
}

/// Code 256 sets the width back to 9 and the number of codes in use back to
/// 258, wherever in the stream it stands, and leaves the output alone.
pub proof fn lemma_reset(s: LzwState, declared: nat)
    ensures
        lzw_step(s, 256, declared).width == 9,
        lzw_step(s, 256, declared).table_size() == 258,
        lzw_step(s, 256, declared).out == s.out,
{
}

/// A string may be used before it is complete. After a start or a reset, a
/// literal `a` fills entry 258 with `a` and the byte to come; code 258 right
/// after it gives `a` twice more, the second copied from the first.
pub proof fn lemma_string_runs_into_itself(s: LzwState, a: u8, declared: nat)
    requires
        s.entries.len() == 0,
        s.out.len() + 3 <= declared,
    ensures
        lzw_step(lzw_step(s, a as nat, declared), 258, declared).out == s.out + seq![a, a, a],
{
    let first = lzw_step(s, a as nat, declared);
    assert(first.out == s.out.push(a));
    assert(first.entries[0] == (s.out.len(), 2nat));
    reveal_with_fuel(lzw_copy, 3);
    let one = first.out.push(first.out[s.out.len() as int]);
    let two = one.push(one[s.out.len() as int + 1]);
    assert(lzw_emit(first, 258, declared) == two);
    assert(two =~= s.out + seq![a, a, a]);
}

/// A table of 4096 zeros.
fn new_table() -> (table: Vec<usize>)
    ensures
        table@.len() == MAX_TABLE_SIZE,
{
    let mut table: Vec<usize> = Vec::with_capacity(MAX_TABLE_SIZE);
    while table.len() < MAX_TABLE_SIZE
        invariant
            table@.len() <= MAX_TABLE_SIZE,
        decreases MAX_TABLE_SIZE - table@.len(),
    {
        table.push(0);
    }
    table
}

/// Decompresses `src` to `decompressed_size` bytes.
///
/// A stream needs no end code: decompression is done once the output has
/// the declared size, and what follows in `src` is not looked at. It fails
/// with `TruncatedInput` where `src` ends before that, with
/// `CorruptDictionaryCode` on a code that is not in use yet, and with
/// `SizeMismatch` on an end code before the declared size is reached.
pub fn decompress(src: &[u8], decompressed_size: usize) -> (r: Result<Vec<u8>, DecodeError>)
    ensures
        r matches Ok(out) ==> lzw_output(src@, decompressed_size as nat) == Ok::<
            Seq<u8>,
            DecodeError,
        >(out@),
        r matches Err(e) ==> lzw_output(src@, decompressed_size as nat) == Err::<
            Seq<u8>,
            DecodeError,
        >(e),
        r matches Ok(out) ==> out@.len() == decompressed_size,
{
    let mut code_bit_length = INITIAL_CODE_BIT_LENGTH;
    let mut table_size = INITIAL_TABLE_SIZE;
    let mut code_limit = INITIAL_CODE_LIMIT;
    let mut string_offsets: Vec<usize> = new_table();  // 0 to 257 are not used.
    let mut string_lengths: Vec<usize> = new_table();

    let mut stream = BitStreamLSB::new(src);
    let mut out: Vec<u8> = Vec::new();
    let ghost declared = decompressed_size as nat;
    let ghost mut s = lzw_start();
    proof {
        lemma2_to64();
    }

    while out.len() < decompressed_size
        invariant
            declared == decompressed_size,
            stream.wf(),
            stream.bytes() == src@,
            s.wf(),
            s.out == out@,
            s.width == code_bit_length,
            s.table_size() == table_size,
            code_limit == pow2(s.width),
            string_offsets@.len() == MAX_TABLE_SIZE,
            string_lengths@.len() == MAX_TABLE_SIZE,
            out@.len() <= declared,
            forall|e: int|
                0 <= e < s.entries.len() ==> (#[trigger] s.entries[e]).0 == string_offsets@[258 + e]
                    && s.entries[e].1 == string_lengths@[258 + e] && s.entries[e].1 >= 2
                    && s.entries[e].0 + s.entries[e].1 <= out@.len() + 1,
            lzw_output(src@, declared) == lzw_run(src@, stream.position(), s, declared),
        decreases 8 * src@.len() - stream.position(),
    {
        if stream.remaining_bits() < code_bit_length as u128 {
            return Err(DecodeError::TruncatedInput);
        }
        let ghost pos = stream.position();
        let code = stream.next(code_bit_length);

        if code >= table_size {
            return Err(DecodeError::CorruptDictionaryCode);
        }
        if code == END_CODE {
            return Err(DecodeError::SizeMismatch);
        }
        if code == RESET_CODE {
            code_bit_length = INITIAL_CODE_BIT_LENGTH;
            table_size = INITIAL_TABLE_SIZE;
            code_limit = INITIAL_CODE_LIMIT;
            proof {
                s = lzw_step(s, code as nat, declared);
                lemma2_to64();
            }
            continue ;
        }
        let new_string_offset = out.len();
        let ghost before = out@;
        if code <= 255 {
            out.push(code as u8);
        } else {
            // The code is a table index.
            let len = string_lengths[code];
            let offset = string_offsets[code];
            assert(s.entries[code - 258].0 == offset && s.entries[code - 258].1 == len);
            let mut i: usize = 0;
            while i < len
                invariant_except_break
                    i <= len,
                    out@.len() == before.len() + i,
                    out@.len() < declared,
                    lzw_copy(before, offset as int, len as nat, declared) == lzw_copy(
                        out@,
                        offset + i,
                        (len - i) as nat,
                        declared,
                    ),
                invariant
                    len >= 2,
                    offset + len <= before.len() + 1,
                    declared == decompressed_size,
                ensures
                    out@ == lzw_copy(before, offset as int, len as nat, declared),
                    before.len() < out@.len() <= declared,
                decreases len - i,
            {
                let byte = out[offset + i];
                out.push(byte);
                i += 1;
                // A string may try to run past the declared size.
                if out.len() >= decompressed_size {
                    break ;
                }
            }
        }
        assert(out@ == lzw_emit(s, code as nat, declared));

        // The table takes no more entries once it is full.
        if table_size >= MAX_TABLE_SIZE {
            proof {
                s = lzw_step(s, code as nat, declared);
            }
            continue ;
        }
        // The codes grow by a bit once all codes of the width are in use.

        if table_size == code_limit && code_bit_length < 12 {
            proof {
                lemma_pow2_unfold((code_bit_length + 1) as nat);
            }
            code_bit_length += 1;
            code_limit = code_limit * 2;
        }
        // The string of this code, and the byte to come, get the next code.

        string_offsets[table_size] = new_string_offset;
        string_lengths[table_size] = out.len() - new_string_offset + 1;
        table_size += 1;
        proof {
            let ghost next = lzw_step(s, code as nat, declared);
            assert(next.entries.len() == s.entries.len() + 1);
            assert forall|e: int| 0 <= e < next.entries.len() implies (#[trigger] next.entries[e]).0
                == string_offsets@[258 + e] && next.entries[e].1 == string_lengths@[258 + e]
                && next.entries[e].1 >= 2 && next.entries[e].0 + next.entries[e].1 <= out@.len()
                + 1 by {
                if e < s.entries.len() {
                    assert(next.entries[e] == s.entries[e]);
                }
            }
            s = next;
        }
    }
    Ok(out)
}

} // verus!
