//! The resource map: which resources exist, and where in which volume each
//! one lies.
//!
//! The map is a run of entries of six bytes. The first two hold the type and
//! number of a resource, the other four the volume and the offset in it, all
//! little-endian. An entry of six bytes 0xFF marks a slot to pass over.

use vstd::prelude::*;

verus! {

/// The resource map of a game.
#[derive(Debug)]
pub struct ResourceMap {
    pub entries: Vec<Entry>,
}

/// One entry of the map.
#[derive(Debug, Clone, Copy, PartialEq, Eq, Structural)]
pub struct Entry {
    /// The first two bytes, type and number in one; it names the resource.
    pub id: usize,
    pub resource_type: ResourceType,
    pub resource_number: usize,
    /// The number of the volume that holds the resource.
    pub file: usize,
    /// Where in the volume the header of the resource starts.
    pub offset: usize,
}

/// The kinds of resources.
#[derive(Debug, Clone, Copy, PartialEq, Eq, Structural)]
pub enum ResourceType {
    View,
    Pic,
    Script,
    Text,
    Sound,
    Memory,
    Vocab,
    Font,
    Cursor,
    Patch,
    Bitmap,
    Palette,
    CdAudio,
    Audio,
    Sync,
    Message,
    MapResource,
    Heap,
    Audio36,
    Sync36,
    Translation,
    Rave,
    Unknown,
}

/// The kind that a type number stands for.
pub open spec fn resource_type_of(value: int) -> ResourceType {
    if value == 0 {
        ResourceType::View
    } else if value == 1 {
        ResourceType::Pic
    } else if value == 2 {
        ResourceType::Script
    } else if value == 3 {
        ResourceType::Text
    } else if value == 4 {
        ResourceType::Sound
    } else if value == 5 {
        ResourceType::Memory
    } else if value == 6 {
        ResourceType::Vocab
    } else if value == 7 {
        ResourceType::Font
    } else if value == 8 {
        ResourceType::Cursor
    } else if value == 9 {
        ResourceType::Patch
    } else if value == 10 {
        ResourceType::Bitmap
    } else if value == 11 {
        ResourceType::Palette
    } else if value == 12 {
        ResourceType::CdAudio
    } else if value == 13 {
        ResourceType::Audio
    } else if value == 14 {
        ResourceType::Sync
    } else if value == 15 {
        ResourceType::Message
    } else if value == 16 {
        ResourceType::MapResource
    } else if value == 17 {
        ResourceType::Heap
    } else if value == 18 {
        ResourceType::Audio36
    } else if value == 19 {
        ResourceType::Sync36
    } else if value == 20 {
        ResourceType::Translation
    } else if value == 21 {
        ResourceType::Rave
    } else {
        ResourceType::Unknown
    }
}

/// The id of the entry at byte `at`: two bytes, little-endian.
pub open spec fn entry_id(data: Seq<u8>, at: int) -> int {
    data[at] as int + 256 * (data[at + 1] as int)
}

/// The location of the entry at byte `at`: four bytes, little-endian.
pub open spec fn entry_location(data: Seq<u8>, at: int) -> int {
    data[at + 2] as int + 256 * (data[at + 3] as int) + 65536 * (data[at + 4] as int) + 16777216
        * (data[at + 5] as int)
}

/// The entry that the six bytes at `at` stand for; `None` for the marker of
/// six bytes 0xFF. The id holds the type in its high 5 bits and the number
/// in its low 11 bits; the location holds the volume in its high 6 bits and
/// the offset in its low 26 bits.
pub open spec fn entry_at(data: Seq<u8>, at: int) -> Option<Entry> {
    let id = entry_id(data, at);
    let location = entry_location(data, at);
    if id == 0xffff && location == 0xffff_ffff {
        None
    } else {
        Some(
            Entry {
                id: id as usize,
                resource_type: resource_type_of(id / 2048),
                resource_number: (id % 2048) as usize,
                file: (location / 0x400_0000) as usize,
                offset: (location % 0x400_0000) as usize,
            },
        )
    }
}

/// Whether one of `entries` has the id `id`.
pub open spec fn has_id(entries: Seq<Entry>, id: int) -> bool {
    exists|i: int| 0 <= i < entries.len() && (#[trigger] entries[i]).id == id
}

/// The entries of the map from chunk `chunk` on, put behind `found`. A
/// marker is passed over, and so is an entry whose id was met before: a
/// resource that several volumes hold is listed once. Bytes behind the last
/// whole chunk are not looked at.
pub open spec fn map_entries_from(data: Seq<u8>, chunk: int, found: Seq<Entry>) -> Seq<Entry>
    decreases data.len() - 6 * chunk,
{
    if chunk < 0 || 6 * chunk + 6 > data.len() {
        found
    } else {
        match entry_at(data, 6 * chunk) {
            None => map_entries_from(data, chunk + 1, found),
            Some(entry) => if has_id(found, entry.id as int) {
                map_entries_from(data, chunk + 1, found)
            } else {
                map_entries_from(data, chunk + 1, found.push(entry))
            },
        }
    }
}

/// The entries of a map.
pub open spec fn map_entries(data: Seq<u8>) -> Seq<Entry> {
    map_entries_from(data, 0, Seq::empty())
}

impl ResourceType {
    /// The kind that a type number stands for; numbers above 21 stand for
    /// no known kind.
    pub fn from(value: usize) -> (kind: ResourceType)
        ensures
            kind == resource_type_of(value as int),
    {
        match value {
            0 => ResourceType::View,
            1 => ResourceType::Pic,
            2 => ResourceType::Script,
            3 => ResourceType::Text,
            4 => ResourceType::Sound,
            5 => ResourceType::Memory,
            6 => ResourceType::Vocab,
            7 => ResourceType::Font,
            8 => ResourceType::Cursor,
            9 => ResourceType::Patch,
            10 => ResourceType::Bitmap,
            11 => ResourceType::Palette,
            12 => ResourceType::CdAudio,
            13 => ResourceType::Audio,
            14 => ResourceType::Sync,
            15 => ResourceType::Message,
            16 => ResourceType::MapResource,
            17 => ResourceType::Heap,
            18 => ResourceType::Audio36,
            19 => ResourceType::Sync36,
            20 => ResourceType::Translation,
            21 => ResourceType::Rave,
            _ => ResourceType::Unknown,
        }
    }
}

impl Entry {
    /// The entry that six bytes stand for; `None` for the marker.
    pub fn from_data(data: &[u8]) -> (entry: Option<Entry>)
        requires
            data@.len() >= 6,
        ensures
            entry == entry_at(data@, 0),
    {
        let id: u32 = (data[0] as u32) + 256 * (data[1] as u32);
        let rest: u32 = (data[2] as u32) + 256 * (data[3] as u32) + 65536 * (data[4] as u32)
            + 16777216 * (data[5] as u32);
        if id == 0xffff && rest == 0xffffffff {
            return None;
        }
        let resource_type = ResourceType::from((id / 2048) as usize);  // The high 5 bits.
        let resource_number = (id % 2048) as usize;  // The low 11 bits.
        let file = (rest / 0x400_0000) as usize;  // The high 6 bits.
        let offset = (rest % 0x400_0000) as usize;  // The low 26 bits.
        Some(Entry { id: id as usize, resource_type, resource_number, file, offset })
    }
}

impl ResourceMap {
    /// Reads the entries out of the bytes of a map.
    pub fn parse(data: &[u8]) -> (map: ResourceMap)
        ensures
            map.entries@ == map_entries(data@),
    {
        let mut seen: Vec<bool> = Vec::with_capacity(65536);
        while seen.len() < 65536
            invariant
                seen@.len() <= 65536,
                forall|i: int| 0 <= i < seen@.len() ==> !seen@[i],
            decreases 65536 - seen@.len(),
        {
            seen.push(false);
        }
        let mut entries: Vec<Entry> = Vec::new();
        let mut chunk: usize = 0;
        while data.len() - 6 * chunk >= 6
            invariant
                6 * chunk <= data@.len(),
                seen@.len() == 65536,
                forall|id: int| 0 <= id < 65536 ==> seen@[id] == has_id(entries@, id),
                map_entries(data@) == map_entries_from(data@, chunk as int, entries@),
            decreases data@.len() - 6 * chunk,
        {
            let bytes = &data[6 * chunk..6 * chunk + 6];
            assert(entry_at(bytes@, 0) == entry_at(data@, 6 * chunk));
            chunk += 1;
            let entry = match Entry::from_data(bytes) {
                Some(entry) => entry,
                None => {
                    continue ;
                },
            };
            // Many resources lie on several disks: each is listed once.
            if seen[entry.id] {
                continue ;
            }
            let ghost before = entries@;
            seen[entry.id] = true;
            entries.push(entry);
            proof {
                assert forall|id: int| 0 <= id < 65536 implies seen@[id] == has_id(
                    entries@,
                    id,
                ) by {
                    if id == entry.id {
                        assert(entries@[before.len() as int].id == id);
                    } else if has_id(before, id) {
                        let i = choose|i: int|
                            0 <= i < before.len() && (#[trigger] before[i]).id == id;
                        assert(entries@[i].id == id);
                    } else if has_id(entries@, id) {
                        let i = choose|i: int|
                            0 <= i < entries@.len() && (#[trigger] entries@[i]).id == id;
                        assert(before[i].id == id);
                    }
                }
            }
        }
        ResourceMap { entries }
    }
}

} // verus!
