//! The packed indices: what an interned string is, and how an arena finds its bytes again.

use vstd::prelude::*;

verus! {

/// How many strings one arena can hold: an arena-local id takes the low 24 bits of an [`IStr`].
pub const MAX_LOCAL_IDS: usize = 0x100_0000;

/// How many chunks, and how many huge strings, an [`ArenaLocalIndex`] can tell apart.
pub const MAX_STORE_INDEX: u32 = 0x8000_0000;

/// The size of one chunk of string storage: 4192 bytes, less 24 that an allocator may keep for
/// itself.
pub const STORAGE_CHUNK_SIZE: usize = 4168;

/// The limits: 2^24 strings in an arena, 2^31 chunks and as many huge strings, and chunks of 4192 less
/// 24 bytes, all of whose places a `u16` can give.
pub proof fn law_limits()
    ensures
        MAX_LOCAL_IDS == 256 * 256 * 256,
        MAX_STORE_INDEX == 128 * 256 * 256 * 256,
        STORAGE_CHUNK_SIZE + 24 == 4192,
        STORAGE_CHUNK_SIZE < u16::MAX,
{
}

//----------------------------------------------------------------------------
// IStr

/// An opaque interned string that is guaranteed to be 32 bits in size.
///
/// The view is the pair of the arena's id and the id of the string inside that arena.
#[derive(Copy, Clone, PartialEq, Eq, Structural, Hash)]
pub struct IStr {
    raw: u32,
}

impl View for IStr {
    type V = (u8, u32);

    closed spec fn view(&self) -> (u8, u32) {
        ((self.raw / 0x100_0000) as u8, self.raw % 0x100_0000)
    }
}

impl IStr {
    /// The 32 bits themselves.
    pub closed spec fn spec_raw(self) -> u32 {
        self.raw
    }

    /// The interned string with the given 32 bits.
    pub closed spec fn spec_from_raw(raw: u32) -> IStr {
        IStr { raw }
    }

    /// Packs the id of an arena and the index of a string inside it.
    pub fn new(arena_id: u8, arena_local_index: usize) -> (istr: IStr)
        requires
            arena_local_index < MAX_LOCAL_IDS,
        ensures
            istr@ == (arena_id, arena_local_index as u32),
    {
        let arena: u32 = arena_id as u32;
        let local: u32 = arena_local_index as u32;
        let raw: u32 = (arena << 24) | local;
        assert(raw / 0x100_0000 == arena && raw % 0x100_0000 == local) by (bit_vector)
            requires
                raw == (arena << 24) | local,
                arena < 0x100,
                local < 0x100_0000,
        ;
        IStr { raw }
    }

    /// The arena that holds the string.
    pub fn arena_id(&self) -> (id: u8)
        ensures
            id == self@.0,
    {
        let raw: u32 = self.raw;
        assert(raw >> 24 == raw / 0x100_0000 && raw >> 24 < 0x100) by (bit_vector);
        (raw >> 24) as u8
    }

    /// The place of the string inside its arena.
    pub fn arena_local_id(&self) -> (id: u32)
        ensures
            id == self@.1,
            id < MAX_LOCAL_IDS,
    {
        let raw: u32 = self.raw;
        assert((raw << 8) >> 8 == raw % 0x100_0000 && raw % 0x100_0000 < 0x100_0000)
            by (bit_vector);
        (raw << 8) >> 8
    }

    /// The 32 bits of the interned string.
    pub(crate) fn to_raw(self) -> (raw: u32)
        ensures
            raw == self.spec_raw(),
    {
        self.raw
    }

    /// The interned string with the given 32 bits.
    pub(crate) fn from_raw(raw: u32) -> (istr: IStr)
        ensures
            istr == IStr::spec_from_raw(raw),
    {
        IStr { raw }
    }

    /// An interned string is its arena's id and its place there: two with the same view are equal,
    /// and so are two with the same bits.
    pub proof fn law_view_injective(a: IStr, b: IStr)
        ensures
            a@ == b@ <==> a == b,
            a.spec_raw() == b.spec_raw() <==> a == b,
            IStr::spec_from_raw(a.spec_raw()) == a,
            a@.1 < MAX_LOCAL_IDS,
    {
        assert(a.raw / 0x100_0000 < 0x100);
        assert(b.raw / 0x100_0000 < 0x100);
    }

    /// The top 8 of the 32 bits are the arena's id, and the other 24 the place of the string in it.
    pub proof fn law_bits(self)
        ensures
            self.spec_raw() == self@.0 * 0x100_0000 + self@.1,
            self@.1 < 0x100_0000,
    {
        assert(self.raw / 0x100_0000 < 0x100);
    }

    /// The bits that an interned string is made from are its bits.
    pub proof fn law_raw_round_trip(raw: u32)
        ensures
            IStr::spec_from_raw(raw).spec_raw() == raw,
    {
    }
}

//----------------------------------------------------------------------------
// ArenaLocalIndex

/// Where an arena keeps a string.
pub enum StoreSlot {
    /// In the chunk with this number.
    Chunk(u32),
    /// Among the huge strings, under this number.
    Huge(u32),
}

impl StoreSlot {
    /// The number of the chunk, if it is one.
    pub open spec fn chunk(self) -> Option<u32> {
        match self {
            StoreSlot::Chunk(i) => Some(i),
            StoreSlot::Huge(_) => None,
        }
    }

    /// The number of the huge string, if it is one.
    pub open spec fn huge(self) -> Option<u32> {
        match self {
            StoreSlot::Chunk(_) => None,
            StoreSlot::Huge(i) => Some(i),
        }
    }
}

/// The number of a chunk or of a huge string, with the top bit telling which.
#[derive(Copy, Clone, Debug, PartialEq, Eq, Structural, Hash)]
pub struct ArenaLocalIndex {
    raw: u32,
}

impl View for ArenaLocalIndex {
    type V = StoreSlot;

    closed spec fn view(&self) -> StoreSlot {
        if self.raw < MAX_STORE_INDEX {
            StoreSlot::Chunk(self.raw)
        } else {
            StoreSlot::Huge((self.raw - MAX_STORE_INDEX) as u32)
        }
    }
}

impl ArenaLocalIndex {
    /// The number, whichever of the two it counts.
    pub open spec fn number(self) -> u32 {
        match self@ {
            StoreSlot::Chunk(i) => i,
            StoreSlot::Huge(i) => i,
        }
    }

    /// What an index was made from comes back out of it, and an index is never both of a chunk and
    /// of a huge string.
    pub proof fn law_round_trip(index: ArenaLocalIndex, i: u32)
        ensures
            index@ == StoreSlot::Chunk(i) <==> index@.chunk() == Some(i),
            index@ == StoreSlot::Huge(i) <==> index@.huge() == Some(i),
            index@.chunk() is Some <==> index@.huge() is None,
            index@.chunk() == Some(i) ==> index.number() == i,
            index@.huge() == Some(i) ==> index.number() == i,
            index.number() < MAX_STORE_INDEX,
    {
    }

    /// An index is what it counts and the number: two with the same view are equal.
    pub proof fn law_view_injective(a: ArenaLocalIndex, b: ArenaLocalIndex)
        ensures
            a@ == b@ <==> a == b,
    {
    }

    /// The index of a chunk.
    pub fn new_chunk_index(index: u32) -> (result: ArenaLocalIndex)
        requires
            index < MAX_STORE_INDEX,
        ensures
            result@ == StoreSlot::Chunk(index),
    {
        ArenaLocalIndex { raw: index }
    }

    /// The index of a huge string.
    pub fn new_huge_index(index: u32) -> (result: ArenaLocalIndex)
        requires
            index < MAX_STORE_INDEX,
        ensures
            result@ == StoreSlot::Huge(index),
    {
        let raw: u32 = (1u32 << 31) | index;
        assert(raw == 0x8000_0000 + index) by (bit_vector)
            requires
                raw == (1u32 << 31) | index,
                index < 0x8000_0000,
        ;
        ArenaLocalIndex { raw }
    }

    /// The number without the bit that tells what it counts.
    pub fn get_index_unchecked(&self) -> (index: u32)
        ensures
            index == self.number(),
            index < MAX_STORE_INDEX,
    {
        let raw: u32 = self.raw;
        assert((raw << 1) >> 1 == (if raw < 0x8000_0000 { raw as int } else { raw - 0x8000_0000 }))
            by (bit_vector);
        (raw << 1) >> 1
    }

    /// Whether this is the index of a huge string.
    pub fn is_huge(&self) -> (huge: bool)
        ensures
            huge == (self@ is Huge),
    {
        let raw: u32 = self.raw;
        assert((raw >> 31 == 1) == (raw >= 0x8000_0000)) by (bit_vector);
        (raw >> 31) == 1
    }

    /// The number of the chunk, if this is the index of one.
    pub fn chunk_index(&self) -> (index: Option<u32>)
        ensures
            index == self@.chunk(),
    {
        if self.is_huge() {
            None
        } else {
            Some(self.get_index_unchecked())
        }
    }

    /// The number of the huge string, if this is the index of one.
    pub fn huge_index(&self) -> (index: Option<u32>)
        ensures
            index == self@.huge(),
    {
        if self.is_huge() {
            Some(self.get_index_unchecked())
        } else {
            None
        }
    }
}

//----------------------------------------------------------------------------
// CompositeIndex

/// Where the bytes of one string are.
pub enum Location {
    /// A run of bytes inside a chunk.
    Chunk { chunk: u32, start: u16, len: u16 },
    /// The whole of a huge string.
    Huge(u32),
}

impl Location {
    /// The number of the huge string, if it is one.
    pub open spec fn huge(self) -> Option<u32> {
        match self {
            Location::Chunk { chunk, start, len } => None,
            Location::Huge(i) => Some(i),
        }
    }

    /// The chunk, the start and the length, if it is a place in a chunk.
    pub open spec fn chunk_info(self) -> Option<(u32, u16, u16)> {
        match self {
            Location::Chunk { chunk, start, len } => Some((chunk, start, len)),
            Location::Huge(_) => None,
        }
    }
}

/// What a place was made from comes back out of it, and a place is never both in a chunk and among
/// the huge strings.
pub proof fn law_location_parts(location: Location, chunk: u32, start: u16, len: u16, i: u32)
    ensures
        location == (Location::Chunk { chunk, start, len }) <==> location.chunk_info() == Some(
            (chunk, start, len),
        ),
        location == Location::Huge(i) <==> location.huge() == Some(i),
        location.chunk_info() is Some <==> location.huge() is None,
{
}

/// The place of one string: a chunk with the start and length of the string in it, or the number
/// of a huge string.
#[derive(Copy, Clone, Debug)]
pub struct CompositeIndex {
    arena_local_index: ArenaLocalIndex,
    chunk_start_offset: u16,
    len: u16,
}

impl View for CompositeIndex {
    type V = Location;

    closed spec fn view(&self) -> Location {
        match self.arena_local_index@ {
            StoreSlot::Chunk(chunk) => Location::Chunk {
                chunk,
                start: self.chunk_start_offset,
                len: self.len,
            },
            StoreSlot::Huge(i) => Location::Huge(i),
        }
    }
}

impl CompositeIndex {
    /// The start and the length as they are kept, whether or not they mean something.
    pub closed spec fn range(self) -> (u16, u16) {
        (self.chunk_start_offset, self.len)
    }

    /// For a string in a chunk, the start and the length that are kept are those of its place.
    pub proof fn law_range(self)
        ensures
            self@.chunk_info() matches Some((chunk, start, len)) ==> self.range() == (start, len),
    {
    }

    /// The place of a huge string. The start and the length that are kept for it lie outside every
    /// chunk, so that a mistaken use of them cannot go unnoticed.
    pub fn new_huge_index(index: usize) -> (result: CompositeIndex)
        requires
            index < MAX_STORE_INDEX,
        ensures
            result@ == Location::Huge(index as u32),
            result.range() == (u16::MAX, u16::MAX),
            result.range().0 >= STORAGE_CHUNK_SIZE,
    {
        CompositeIndex {
            arena_local_index: ArenaLocalIndex::new_huge_index(index as u32),
            chunk_start_offset: u16::MAX,
            len: u16::MAX,
        }
    }

    /// The place of a string inside a chunk.
    pub fn new_chunk_index(index: usize, chunk_start_offset: u16, len: u16) -> (result:
        CompositeIndex)
        requires
            index < MAX_STORE_INDEX,
            chunk_start_offset + len <= STORAGE_CHUNK_SIZE,
        ensures
            result@ == (Location::Chunk { chunk: index as u32, start: chunk_start_offset, len }),
            result.range() == (chunk_start_offset, len),
    {
        CompositeIndex {
            arena_local_index: ArenaLocalIndex::new_chunk_index(index as u32),
            chunk_start_offset,
            len,
        }
    }

    /// The number of the huge string, if the string is one.
    pub fn huge_index(&self) -> (index: Option<u32>)
        ensures
            index == self@.huge(),
    {
        self.arena_local_index.huge_index()
    }

    /// The chunk, the start and the length, if the string lies in a chunk.
    pub fn chunk_info(&self) -> (info: Option<(u32, u16, u16)>)
        ensures
            info == self@.chunk_info(),
    {
        if let Some(chunk_index) = self.arena_local_index.chunk_index() {
            Some((chunk_index, self.chunk_start_offset, self.len))
        } else {
            None
        }
    }
}

} // verus!
