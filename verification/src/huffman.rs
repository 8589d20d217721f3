//! Huffman decompression over a table of nodes, with the payload read
//! most-significant bit first.
//!
//! The input starts with the number of nodes and the terminator byte. Then
//! come the nodes, two bytes each, and then the payload.

use vstd::prelude::*;
use vstd::arithmetic::power2::*;
use crate::bitstream_msb::{BitStreamMSB, msb_value, lemma_msb_value_bound};
use crate::error::DecodeError;

verus! {

/// A node of the tree. `siblings` holds two indexes into the node table: the
/// high nibble is the node to go to on bit 0, the low nibble the node to go
/// to on bit 1. A node with `siblings == 0` is a leaf and stands for
/// `value`.
#[derive(Clone, Copy, Debug, PartialEq, Eq, Structural)]
pub struct Node {
    pub value: u8,
    pub siblings: u8,
}

/// One decoded byte, where it came from, and the bit after it.
pub struct Symbol {
    /// The byte.
    pub byte: u8,
    /// Whether the byte was read from the payload as eight raw bits, not
    /// taken from a leaf.
    pub is_bitstream_literal: bool,
    /// The position of the first bit after the symbol.
    pub next: int,
}

/// The node table of an input: node `i` is made of the bytes `2 + 2 * i` and
/// `3 + 2 * i`.
pub open spec fn huffman_nodes(src: Seq<u8>) -> Seq<Node> {
    Seq::new(
        src[0] as nat,
        |i: int| Node { value: src[2 + 2 * i], siblings: src[3 + 2 * i] },
    )
}

/// The payload of an input: what follows the node table.
pub open spec fn huffman_payload(src: Seq<u8>) -> Seq<u8> {
    src.skip(2 + 2 * (src[0] as int))
}

/// The symbol at bit `pos` of the payload, decoded from node `node` on.
///
/// A leaf gives its value and takes no bit. Any other node takes one bit to
/// pick a sibling. Sibling 0 means that the next eight bits are the byte
/// itself. A sibling outside the table is an error, and so is one hop more
/// than `hops` allows: a path that long has closed a cycle.
pub open spec fn huffman_symbol(
    nodes: Seq<Node>,
    data: Seq<u8>,
    pos: int,
    node: int,
    hops: nat,
) -> Result<Symbol, DecodeError>
    decreases hops,
{
    let siblings = nodes[node].siblings;
    if siblings == 0 {
        Ok(Symbol { byte: nodes[node].value, is_bitstream_literal: false, next: pos })
    } else if pos + 1 > 8 * data.len() {
        Err(DecodeError::TruncatedInput)
    } else {
        let sibling = if msb_value(data, pos, 1) != 0 {
            siblings as int % 16
        } else {
            siblings as int / 16
        };
        if sibling == 0 {
            if pos + 9 > 8 * data.len() {
                Err(DecodeError::TruncatedInput)
            } else {
                Ok(
                    Symbol {
                        byte: msb_value(data, pos + 1, 8) as u8,
                        is_bitstream_literal: true,
                        next: pos + 9,
                    },
                )
            }
        } else if sibling >= nodes.len() || hops == 0 {
            Err(DecodeError::MalformedHuffmanTree)
        } else {
            huffman_symbol(nodes, data, pos + 1, sibling, (hops - 1) as nat)
        }
    }
}

/// The symbol at bit `pos` of the payload, decoded from the root. Its path
/// may visit every node once.
pub open spec fn huffman_next(nodes: Seq<Node>, data: Seq<u8>, pos: int) -> Result<
    Symbol,
    DecodeError,
> {
    huffman_symbol(nodes, data, pos, 0, (nodes.len() - 1) as nat)
}

/// What decompression gives from bit `pos` of the payload on, with `out`
/// decoded so far. It ends well once the output has `declared` bytes.
/// Before that, the terminator read as eight raw bits ends it with
/// `SizeMismatch`.
pub open spec fn huffman_run(
    nodes: Seq<Node>,
    terminator: u8,
    data: Seq<u8>,
    pos: int,
    out: Seq<u8>,
    declared: nat,
) -> Result<Seq<u8>, DecodeError>
    decreases declared - out.len(),
{
    if out.len() >= declared {
        Ok(out)
    } else {
        match huffman_next(nodes, data, pos) {
            Err(e) => Err(e),
            Ok(symbol) => if symbol.is_bitstream_literal && symbol.byte == terminator {
                Err(DecodeError::SizeMismatch)
            } else {
                huffman_run(nodes, terminator, data, symbol.next, out.push(symbol.byte), declared)
            },
        }
    }
}

/// What decompressing `src` to `declared` bytes gives. An input too short
/// for its header and node table is truncated; a table without nodes is no
/// tree.
pub open spec fn huffman_output(src: Seq<u8>, declared: nat) -> Result<Seq<u8>, DecodeError> {
    if src.len() < 2 || src.len() < 2 + 2 * (src[0] as int) {
        Err(DecodeError::TruncatedInput)
    } else if src[0] == 0 {
        Err(DecodeError::MalformedHuffmanTree)
    } else {
        huffman_run(huffman_nodes(src), src[1], huffman_payload(src), 0, Seq::empty(), declared)
    }
}

/// With a root that is a leaf, every symbol is the root's value and no bit
/// is taken.
pub proof fn lemma_leaf_root_run(
    nodes: Seq<Node>,
    terminator: u8,
    data: Seq<u8>,
    pos: int,
    out: Seq<u8>,
    declared: nat,
)
    requires
        nodes.len() >= 1,
        nodes[0].siblings == 0,
        out.len() <= declared,
    ensures
        huffman_run(nodes, terminator, data, pos, out, declared) == Ok::<Seq<u8>, DecodeError>(
            out + Seq::new((declared - out.len()) as nat, |i: int| nodes[0].value),
        ),
    decreases declared - out.len(),
{
    let rest = Seq::new((declared - out.len()) as nat, |i: int| nodes[0].value);
    if out.len() >= declared {
        assert(out + rest =~= out);
    } else {
        let longer = out.push(nodes[0].value);
        lemma_leaf_root_run(nodes, terminator, data, pos, longer, declared);
        let shorter = Seq::new((declared - longer.len()) as nat, |i: int| nodes[0].value);
        assert(longer + shorter =~= out + rest);
    }
}

/// A tree of one node decodes every position to that node's value: an input
/// with a node count of 1 and a first node without siblings decompresses to
/// `declared` copies of the node's value, whatever the payload holds.
pub proof fn lemma_one_node_tree(src: Seq<u8>, declared: nat)
    requires
        src.len() >= 4,
        src[0] == 1,
        src[3] == 0,
    ensures
        huffman_output(src, declared) == Ok::<Seq<u8>, DecodeError>(
            Seq::new(declared, |i: int| src[2]),
        ),
{
    let nodes = huffman_nodes(src);
    assert(nodes[0] == Node { value: src[2], siblings: src[3] });
    lemma_leaf_root_run(nodes, src[1], huffman_payload(src), 0, Seq::empty(), declared);
    assert(Seq::<u8>::empty() + Seq::new(declared, |i: int| nodes[0].value) =~= Seq::new(
        declared,
        |i: int| src[2],
    ));
}

/// Decoding halts at the first terminator read as eight raw bits: nothing
/// after it is decoded, and since the declared size is not reached, the
/// input is rejected.
pub proof fn lemma_halts_at_terminator(
    nodes: Seq<Node>,
    terminator: u8,
    data: Seq<u8>,
    pos: int,
    out: Seq<u8>,
    declared: nat,
)
    requires
        out.len() < declared,
        huffman_next(nodes, data, pos) matches Ok(symbol) && symbol.is_bitstream_literal
            && symbol.byte == terminator,
    ensures
        huffman_run(nodes, terminator, data, pos, out, declared) == Err::<Seq<u8>, DecodeError>(
            DecodeError::SizeMismatch,
        ),
{
}

impl Node {
    /// The node that two bytes of the table stand for.
    pub fn from(data: &[u8]) -> (node: Self)
        requires
            data@.len() >= 2,
        ensures
            node == (Node { value: data@[0], siblings: data@[1] }),
    {
        Self { value: data[0], siblings: data[1] }
    }
}

/// Decodes the next byte. The flag tells whether it was read from the
/// payload as eight raw bits (after a bit that led to sibling 0) or taken
/// from a leaf.
pub fn get_next_byte(bitstream: &mut BitStreamMSB, nodes: &[Node]) -> (r: Result<
    (u8, bool),
    DecodeError,
>)
    requires
        old(bitstream).wf(),
        nodes@.len() >= 1,
    ensures
        final(bitstream).wf(),
        final(bitstream).bytes() == old(bitstream).bytes(),
        match huffman_next(nodes@, old(bitstream).bytes(), old(bitstream).position()) {
            Ok(symbol) => r == Ok::<(u8, bool), DecodeError>(
                (symbol.byte, symbol.is_bitstream_literal),
            ) && final(bitstream).position() == symbol.next,
            Err(e) => r == Err::<(u8, bool), DecodeError>(e),
        },
{
    let mut index: usize = 0;
    let mut hops_left: usize = nodes.len() - 1;
    loop
        invariant
            bitstream.wf(),
            bitstream.bytes() == old(bitstream).bytes(),
            index < nodes@.len(),
            huffman_next(nodes@, old(bitstream).bytes(), old(bitstream).position())
                == huffman_symbol(
                nodes@,
                bitstream.bytes(),
                bitstream.position(),
                index as int,
                hops_left as nat,
            ),
        decreases hops_left,
    {
        let node = &nodes[index];
        if node.siblings == 0 {
            return Ok((node.value, false));
        }
        if bitstream.remaining_bits() < 1 {
            return Err(DecodeError::TruncatedInput);
        }
        let ghost pos = bitstream.position();
        let is_low_nibble = bitstream.next(1) != 0;
        let siblings = node.siblings;
        let low = siblings & 0x0f;
        let high = siblings >> 4;
        assert(low == siblings % 16 && high == siblings / 16) by (bit_vector)
            requires
                low == siblings & 0x0f,
                high == siblings >> 4,
        ;
        let sibling = if is_low_nibble { low } else { high };
        if sibling == 0 {
            if bitstream.remaining_bits() < 8 {
                return Err(DecodeError::TruncatedInput);
            }
            proof {
                lemma_msb_value_bound(bitstream.bytes(), pos + 1, 8);
                lemma2_to64();
            }
            let literal_token = bitstream.next(8) as u8;
            return Ok((literal_token, true));
        }
        if sibling as usize >= nodes.len() || hops_left == 0 {
            return Err(DecodeError::MalformedHuffmanTree);
        }
        hops_left -= 1;
        index = sibling as usize;
    }
}

/// Decompresses `src` to `decompressed_size` bytes.
///
/// Decoding is done once the output has the declared size; what follows in
/// the payload is not looked at. It fails with `TruncatedInput` where `src`
/// is too short for its header or node table or the payload runs out, with
/// `MalformedHuffmanTree` for a table without nodes, a sibling outside the
/// table or a path that closes a cycle, and with `SizeMismatch` where the
/// terminator comes before the declared size is reached.
pub fn decompress(src: &[u8], decompressed_size: usize) -> (r: Result<Vec<u8>, DecodeError>)
    ensures
        r matches Ok(out) ==> huffman_output(src@, decompressed_size as nat) == Ok::<
            Seq<u8>,
            DecodeError,
        >(out@),
        r matches Err(e) ==> huffman_output(src@, decompressed_size as nat) == Err::<
            Seq<u8>,
            DecodeError,
        >(e),
        r matches Ok(out) ==> out@.len() == decompressed_size,
{
    // The header:
    if src.len() < 2 {
        return Err(DecodeError::TruncatedInput);
    }
    let node_count = src[0] as usize;
    let terminator = src[1];
    let node_size = node_count * 2;
    if src.len() < 2 + node_size {
        return Err(DecodeError::TruncatedInput);
    }
    if node_count == 0 {
        return Err(DecodeError::MalformedHuffmanTree);
    }
    let data = &src[2 + node_size..src.len()];
    assert(data@ == huffman_payload(src@));

    // The nodes:
    let mut nodes: Vec<Node> = Vec::with_capacity(node_count);
    while nodes.len() < node_count
        invariant
            node_count == src@[0],
            src@.len() >= 2 + 2 * node_count,
            nodes@.len() <= node_count,
            forall|i: int| 0 <= i < nodes@.len() ==> nodes@[i] == huffman_nodes(src@)[i],
        decreases node_count - nodes@.len(),
    {
        let at = 2 + 2 * nodes.len();
        let pair = &src[at..at + 2];
        nodes.push(Node::from(pair));
    }
    assert(nodes@ =~= huffman_nodes(src@));

    // One byte at a time, up to the terminator or the declared size:
    let mut bitstream = BitStreamMSB::new(data);
    let mut out: Vec<u8> = Vec::new();
    while out.len() < decompressed_size
        invariant
            bitstream.wf(),
            bitstream.bytes() == data@,
            nodes@.len() >= 1,
            out@.len() <= decompressed_size,
            huffman_output(src@, decompressed_size as nat) == huffman_run(
                nodes@,
                terminator,
                data@,
                bitstream.position(),
                out@,
                decompressed_size as nat,
            ),
        decreases decompressed_size - out@.len(),
    {
        let (byte, is_bitstream_literal) = match get_next_byte(&mut bitstream, nodes.as_slice()) {
            Ok(symbol) => symbol,
            Err(e) => {
                return Err(e);
            },
        };
        if is_bitstream_literal && byte == terminator {
            return Err(DecodeError::SizeMismatch);
        }
        out.push(byte);
    }
    Ok(out)
}

} // verus!
