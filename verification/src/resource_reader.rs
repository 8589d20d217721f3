//! Reads one resource out of its volume.
//!
//! In the volume a resource starts with a header of four little-endian
//! numbers of two bytes each: the id, the compressed size, the decompressed
//! size and the compression method. The compressed size counts from the
//! decompressed-size field on, so the content is four bytes shorter.

use vstd::prelude::*;
use crate::error::DecodeError;
use crate::huffman;
use crate::huffman::huffman_output;
use crate::lzw;
use crate::lzw::lzw_output;
use crate::map::Entry;
use crate::resource_files::Files;

verus! {

/// The method of content that is stored as it is.
pub const METHOD_UNCOMPRESSED: usize = 0;

/// The method of LZW-compressed content.
pub const METHOD_LZW: usize = 1;

/// The method of Huffman-compressed content.
pub const METHOD_HUFFMAN: usize = 2;

/// The number that the two bytes at `at` hold, low byte first.
pub open spec fn le16(data: Seq<u8>, at: int) -> int {
    data[at] as int + 256 * (data[at + 1] as int)
}

/// The resource that `content` holds under `method`. Content stored as it
/// is must have the declared size.
pub open spec fn decompressed(content: Seq<u8>, decompressed_size: nat, method: int) -> Result<
    Seq<u8>,
    DecodeError,
> {
    if method == 0 {
        if content.len() == decompressed_size {
            Ok(content)
        } else {
            Err(DecodeError::SizeMismatch)
        }
    } else if method == 1 {
        lzw_output(content, decompressed_size)
    } else if method == 2 {
        huffman_output(content, decompressed_size)
    } else {
        Err(DecodeError::UnsupportedCompressionMethod)
    }
}

/// The resource whose header starts at `offset` of `volume`, where the map
/// lists it under `id`. The header must lie in the volume and carry that
/// id, and the content that it declares must lie in the volume too.
pub open spec fn resource_at(volume: Seq<u8>, offset: int, id: int) -> Result<
    Seq<u8>,
    DecodeError,
> {
    if offset + 8 > volume.len() {
        Err(DecodeError::TruncatedInput)
    } else if le16(volume, offset) != id || le16(volume, offset + 2) < 4 {
        Err(DecodeError::MalformedHeader)
    } else if offset + 8 + (le16(volume, offset + 2) - 4) > volume.len() {
        Err(DecodeError::TruncatedInput)
    } else {
        decompressed(
            volume.subrange(offset + 8, offset + 8 + (le16(volume, offset + 2) - 4)),
            le16(volume, offset + 4) as nat,
            le16(volume, offset + 6),
        )
    }
}

/// Reads two bytes as a number, low byte first.
fn read_le16(data: &[u8], at: usize) -> (value: usize)
    requires
        at + 2 <= data@.len(),
    ensures
        value == le16(data@, at as int),
        value <= 0xffff,
{
    (data[at] as usize) + 256 * (data[at + 1] as usize)
}

/// What reading the resource of `entry` out of `volumes` gives. A volume
/// that is not there is input cut short.
pub open spec fn resource_of(entry: Entry, volumes: Map<usize, Vec<u8>>) -> Result<
    Seq<u8>,
    DecodeError,
> {
    if volumes.contains_key(entry.file) {
        resource_at(volumes[entry.file]@, entry.offset as int, entry.id as int)
    } else {
        Err(DecodeError::TruncatedInput)
    }
}

/// Reads the resource of a map entry out of the volumes.
///
/// Fails with `TruncatedInput` where the volume is missing or ends inside
/// the header or the content, with `MalformedHeader` where the header
/// carries another id than the entry or a compressed size below 4, with
/// `UnsupportedCompressionMethod` for a method above 2, with `SizeMismatch`
/// for stored content of another size than declared, and as the
/// decompressors fail.
pub fn read(entry: &Entry, files: &Files) -> (r: Result<Vec<u8>, DecodeError>)
    ensures
        r matches Ok(bytes) ==> resource_of(*entry, files.files@) == Ok::<Seq<u8>, DecodeError>(
            bytes@,
        ),
        r matches Err(e) ==> resource_of(*entry, files.files@) == Err::<Seq<u8>, DecodeError>(e),
{
    // The data of the volume that the entry names:
    let file = match files.files.get(&entry.file) {
        Some(file) => file,
        None => {
            return Err(DecodeError::TruncatedInput);
        },
    };
    read_from_volume(entry, file.as_slice())
}

/// Reads the resource of a map entry out of its volume.
pub fn read_from_volume(entry: &Entry, file: &[u8]) -> (r: Result<Vec<u8>, DecodeError>)
    ensures
        r matches Ok(bytes) ==> resource_at(file@, entry.offset as int, entry.id as int) == Ok::<
            Seq<u8>,
            DecodeError,
        >(bytes@),
        r matches Err(e) ==> resource_at(file@, entry.offset as int, entry.id as int) == Err::<
            Seq<u8>,
            DecodeError,
        >(e),
{
    if file.len() < 8 || entry.offset > file.len() - 8 {
        return Err(DecodeError::TruncatedInput);
    }
    let offset = entry.offset;

    // The header:
    let id = read_le16(file, offset);
    let compressed_size = read_le16(file, offset + 2);
    let decompressed_size = read_le16(file, offset + 4);
    let method = read_le16(file, offset + 6);

    // The content, compressed or not, in its true length:
    if id != entry.id || compressed_size < 4 {
        return Err(DecodeError::MalformedHeader);
    }
    // The compressed size counts from the decompressed-size field on.
    let actual_compressed_size = compressed_size - 4;
    if file.len() - 8 - offset < actual_compressed_size {
        return Err(DecodeError::TruncatedInput);
    }
    let content = &file[offset + 8..offset + 8 + actual_compressed_size];

    decompress(content, decompressed_size, method)
}

/// Decompresses the content of a resource by its method.
pub fn decompress(content: &[u8], decompressed_size: usize, method: usize) -> (r: Result<
    Vec<u8>,
    DecodeError,
>)
    ensures
        r matches Ok(bytes) ==> decompressed(content@, decompressed_size as nat, method as int)
            == Ok::<Seq<u8>, DecodeError>(bytes@),
        r matches Err(e) ==> decompressed(content@, decompressed_size as nat, method as int)
            == Err::<Seq<u8>, DecodeError>(e),
        r matches Ok(bytes) ==> bytes@.len() == decompressed_size,
{
    if method == METHOD_UNCOMPRESSED {
        if content.len() != decompressed_size {
            return Err(DecodeError::SizeMismatch);
        }
        Ok(vstd::slice::slice_to_vec(content))
    } else if method == METHOD_LZW {
        lzw::decompress(content, decompressed_size)
    } else if method == METHOD_HUFFMAN {
        huffman::decompress(content, decompressed_size)
    } else {
        Err(DecodeError::UnsupportedCompressionMethod)
    }
}

} // verus!
