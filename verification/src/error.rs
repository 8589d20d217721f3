//! The ways in which decoding one resource can fail.

use vstd::prelude::*;

verus! {

/// Why a resource was rejected. Every error is final for that resource: the
/// input is static, so decoding it again gives the same answer.
#[derive(Debug, Clone, Copy, PartialEq, Eq, Structural)]
pub enum DecodeError {
    /// A volume header does not match the map entry that points at it.
    MalformedHeader,
    /// A volume header names a compression method other than 0, 1 or 2.
    UnsupportedCompressionMethod,
    /// An LZW code refers to a dictionary slot that is not filled yet.
    CorruptDictionaryCode,
    /// A Huffman node table is empty, or a sibling link leaves the table or
    /// closes a cycle.
    MalformedHuffmanTree,
    /// Decompression ended with a length other than the declared one.
    SizeMismatch,
    /// A byte below 0xF0 stands where a picture opcode is expected.
    UnrecognizedOpcode,
    /// A picture extension command carries an unknown sub-command.
    UnrecognizedExtensionSubcommand,
    /// The input ends before the bits or bytes that its format calls for.
    TruncatedInput,
}

} // verus!
