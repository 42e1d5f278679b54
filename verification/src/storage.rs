//! Arenas: storage for the text of interned strings.

use crate::index::{CompositeIndex, IStr, Location, MAX_LOCAL_IDS, STORAGE_CHUNK_SIZE};
use crate::text::{decode, law_utf8_injective, utf8};
use vstd::prelude::*;

verus! {

/// An arena: it only ever grows, and what it holds never moves.
///
/// The view is the sequence of the strings that it holds, in the order in which they came: the
/// string with arena-local id `i` is the one at `i`.
pub struct ConcurrentInternerMemberStorage {
    /// The original index of this arena in its interner.
    arena_id: u8,
    /// Number of bytes left in the last chunk.
    bytes_left: usize,
    /// Where each of the strings is.
    alloc_indices: Vec<CompositeIndex>,
    /// Storage for strings, in chunks of a fixed size.
    chunks: Vec<Box<[u8; STORAGE_CHUNK_SIZE]>>,
    /// Standalone storage for strings that no chunk can hold.
    huge_strings: Vec<String>,
    /// Number of bytes that went to strings which another arena was first to provide.
    wasted_bytes: usize,
}

/// How far the storage of an arena is filled.
pub struct Layout {
    /// The number of chunks.
    pub chunks: nat,
    /// The number of bytes left in the last chunk.
    pub free: nat,
    /// The number of huge strings.
    pub huge: nat,
}

impl Layout {
    /// The storage of an arena without strings: one chunk, and all of it free.
    pub open spec fn empty() -> Layout {
        Layout { chunks: 1, free: STORAGE_CHUNK_SIZE as nat, huge: 0 }
    }

    /// Where the next string of `len` bytes goes: into what is left of the last chunk if it fits
    /// there, to the start of a new chunk if it fits one, and to the huge strings if it does not.
    pub open spec fn place(self, len: nat) -> Location {
        if len <= self.free {
            Location::Chunk {
                chunk: (self.chunks - 1) as u32,
                start: (STORAGE_CHUNK_SIZE - self.free) as u16,
                len: len as u16,
            }
        } else if len <= STORAGE_CHUNK_SIZE {
            Location::Chunk { chunk: self.chunks as u32, start: 0, len: len as u16 }
        } else {
            Location::Huge(self.huge as u32)
        }
    }

    /// The layout once a string of `len` bytes is placed.
    pub open spec fn after(self, len: nat) -> Layout {
        if len <= self.free {
            Layout { free: (self.free - len) as nat, ..self }
        } else if len <= STORAGE_CHUNK_SIZE {
            Layout {
                chunks: self.chunks + 1,
                free: (STORAGE_CHUNK_SIZE - len) as nat,
                ..self
            }
        } else {
            Layout { huge: self.huge + 1, ..self }
        }
    }
}

/// How far the storage of an arena is filled once it holds the given strings.
pub open spec fn layout_of(strings: Seq<Seq<char>>) -> Layout
    decreases strings.len(),
{
    if strings.len() == 0 {
        Layout::empty()
    } else {
        layout_of(strings.drop_last()).after(utf8(strings.last()).len())
    }
}

/// The number of bytes of those strings that a chunk can hold.
pub open spec fn chunked_bytes(strings: Seq<Seq<char>>) -> nat
    decreases strings.len(),
{
    if strings.len() == 0 {
        0
    } else {
        let len = utf8(strings.last()).len();
        chunked_bytes(strings.drop_last()) + if len <= STORAGE_CHUNK_SIZE {
            len
        } else {
            0
        }
    }
}

/// How far the storage is filled once the first of the strings are there: it only grows.
proof fn lemma_layout_grows(strings: Seq<Seq<char>>, i: int, j: int)
    requires
        0 <= i <= j <= strings.len(),
    ensures
        ({
            let earlier = layout_of(strings.take(i));
            let later = layout_of(strings.take(j));
            &&& 1 <= earlier.chunks <= later.chunks
            &&& earlier.huge <= later.huge
            &&& later.chunks + later.huge <= j + 1
            &&& later.free <= STORAGE_CHUNK_SIZE
            &&& later.chunks == earlier.chunks ==> later.free <= earlier.free
        }),
    decreases j,
{
    if j > 0 {
        assert(strings.take(j).drop_last() =~= strings.take(j - 1));
        lemma_layout_grows(
            strings,
            if i < j {
                i
            } else {
                j - 1
            },
            j - 1,
        );
    }
}

proof fn lemma_chunks_are_filled(strings: Seq<Seq<char>>)
    ensures
        layout_of(strings).free <= STORAGE_CHUNK_SIZE,
        layout_of(strings).chunks * STORAGE_CHUNK_SIZE <= 2 * chunked_bytes(strings) + layout_of(
            strings,
        ).free,
    decreases strings.len(),
{
    if strings.len() > 0 {
        lemma_chunks_are_filled(strings.drop_last());
    }
}

/// Where a string of `len` bytes goes, and what the storage is like then: if it fits what is left of
/// the last chunk, it starts where that begins; if not, but if it fits a chunk, it is the first in a
/// new chunk; and else it is the next huge string and the chunks stay as they are.
pub proof fn law_place(layout: Layout, len: nat)
    requires
        1 <= layout.chunks <= u32::MAX,
        layout.free <= STORAGE_CHUNK_SIZE,
        layout.huge <= u32::MAX,
    ensures
        match layout.place(len) {
            Location::Chunk { chunk, start, len: stored } => {
                &&& stored == len
                &&& len <= layout.free <==> chunk + 1 == layout.chunks
                &&& len > layout.free <==> chunk == layout.chunks
                &&& start == if len <= layout.free {
                    STORAGE_CHUNK_SIZE - layout.free
                } else {
                    0
                }
                &&& start + len <= STORAGE_CHUNK_SIZE
                &&& layout.after(len).chunks == chunk + 1
                &&& layout.after(len).free == STORAGE_CHUNK_SIZE - start - len
                &&& layout.after(len).huge == layout.huge
            },
            Location::Huge(i) => {
                &&& len > STORAGE_CHUNK_SIZE
                &&& i == layout.huge
                &&& layout.after(len).chunks == layout.chunks
                &&& layout.after(len).free == layout.free
                &&& layout.after(len).huge == layout.huge + 1
            },
        },
{
}

/// The storage starts as one chunk that is free, and each string adds to it what it takes.
pub proof fn law_layout_of(strings: Seq<Seq<char>>, s: Seq<char>)
    ensures
        layout_of(Seq::empty()).chunks == 1,
        layout_of(Seq::empty()).free == STORAGE_CHUNK_SIZE,
        layout_of(Seq::empty()).huge == 0,
        layout_of(strings.push(s)) == layout_of(strings).after(utf8(s).len()),
        chunked_bytes(Seq::empty()) == 0,
        utf8(s).len() <= STORAGE_CHUNK_SIZE ==> chunked_bytes(strings.push(s)) == chunked_bytes(
            strings,
        ) + utf8(s).len(),
        utf8(s).len() > STORAGE_CHUNK_SIZE ==> chunked_bytes(strings.push(s)) == chunked_bytes(
            strings,
        ),
{
    assert(strings.push(s).drop_last() =~= strings);
}

/// A chunk with nothing in it.
pub open spec fn blank_chunk() -> Seq<u8> {
    Seq::new(STORAGE_CHUNK_SIZE as nat, |i: int| 0u8)
}

/// A chunk with `bytes` written to it from `start` on.
pub open spec fn overwrite(chunk: Seq<u8>, start: int, bytes: Seq<u8>) -> Seq<u8> {
    Seq::new(
        chunk.len(),
        |i: int|
            if start <= i < start + bytes.len() {
                bytes[i - start]
            } else {
                chunk[i]
            },
    )
}

/// The chunks once `bytes` are written to a location: in a chunk that is there, or in a new one. A
/// huge string leaves them as they are.
pub open spec fn written(chunks: Seq<Seq<u8>>, location: Location, bytes: Seq<u8>) -> Seq<Seq<u8>> {
    match location {
        Location::Chunk { chunk, start, len } => if chunk < chunks.len() {
            chunks.update(chunk as int, overwrite(chunks[chunk as int], start as int, bytes))
        } else {
            chunks.push(overwrite(blank_chunk(), start as int, bytes))
        },
        Location::Huge(_) => chunks,
    }
}

/// Writing bytes to a location in a chunk changes these bytes and no others; a chunk that is new is
/// zero but for them. Nothing is written to the chunks for a huge string.
pub proof fn law_written(chunks: Seq<Seq<u8>>, location: Location, bytes: Seq<u8>)
    requires
        forall|c: int| 0 <= c < chunks.len() ==> (#[trigger] chunks[c]).len() == STORAGE_CHUNK_SIZE,
        location matches Location::Chunk { chunk, start, len } ==> chunk <= chunks.len() && len
            == bytes.len() && start + len <= STORAGE_CHUNK_SIZE,
    ensures
        match location {
            Location::Chunk { chunk, start, len } => {
                let after = written(chunks, location, bytes);
                &&& after.len() == if chunk < chunks.len() {
                    chunks.len()
                } else {
                    chunks.len() + 1
                }
                &&& forall|c: int|
                    0 <= c < after.len() ==> (#[trigger] after[c]).len() == STORAGE_CHUNK_SIZE
                &&& forall|k: int|
                    0 <= k < len ==> after[chunk as int][start + k] == #[trigger] bytes[k]
                &&& forall|c: int, k: int|
                    0 <= c < after.len() && 0 <= k < STORAGE_CHUNK_SIZE && (c != chunk || k < start
                        || start + len <= k) ==> #[trigger] after[c][k] == if c < chunks.len() {
                        chunks[c][k]
                    } else {
                        0
                    }
            },
            Location::Huge(_) => written(chunks, location, bytes) == chunks,
        },
{
}

/// Two locations have no byte in common.
pub open spec fn disjoint(a: Location, b: Location) -> bool {
    match (a, b) {
        (
            Location::Chunk { chunk: chunk_a, start: start_a, len: len_a },
            Location::Chunk { chunk: chunk_b, start: start_b, len: len_b },
        ) => chunk_a != chunk_b || start_a + len_a <= start_b || start_b + len_b <= start_a,
        (Location::Huge(a), Location::Huge(b)) => a != b,
        _ => true,
    }
}

/// A counter of bytes once `len` is added to it: it starts again from zero past the largest
/// `usize`.
pub open spec fn counted(before: nat, len: nat) -> nat {
    if before + len <= usize::MAX {
        before + len
    } else {
        (before + len - usize::MAX - 1) as nat
    }
}

/// The counter counts modulo the number of values of a `usize`.
pub proof fn law_counted(before: nat, len: nat)
    requires
        before <= usize::MAX,
        len <= usize::MAX,
    ensures
        counted(before, len) == (before + len) as int % (usize::MAX + 1),
        before + len <= usize::MAX ==> counted(before, len) == before + len,
{
    if before + len <= usize::MAX {
        vstd::arithmetic::div_mod::lemma_small_mod(before + len, (usize::MAX + 1) as nat);
    } else {
        vstd::arithmetic::div_mod::lemma_fundamental_div_mod_converse(
            (before + len) as int,
            usize::MAX + 1,
            1,
            before + len - usize::MAX - 1,
        );
    }
}

/// An arena in which nothing has been stored.
pub open spec fn is_unused(storage: ConcurrentInternerMemberStorage) -> bool {
    &&& storage@ == Seq::<Seq<char>>::empty()
    &&& storage.wasted() == 0
    &&& storage.layout() == Layout::empty()
    &&& storage.chunk_bytes() == seq![blank_chunk()]
}

/// `after` is `before` with `s` stored under the next arena-local id, and nothing else changed.
pub open spec fn stored(
    before: ConcurrentInternerMemberStorage,
    after: ConcurrentInternerMemberStorage,
    s: Seq<char>,
) -> bool {
    &&& after@ == before@.push(s)
    &&& after.id() == before.id()
    &&& after.wasted() == before.wasted()
    &&& after.layout() == before.layout().after(utf8(s).len())
    &&& after.location(before@.len() as int) == before.layout().place(utf8(s).len())
    &&& after.chunk_bytes() == written(
        before.chunk_bytes(),
        before.layout().place(utf8(s).len()),
        utf8(s),
    )
    &&& forall|i: int| 0 <= i < before@.len() ==> #[trigger] after.location(i) == before.location(i)
}

/// `after` is `before` with `len` more bytes noted as wasted, and nothing else changed.
pub open spec fn wasted_more(
    before: ConcurrentInternerMemberStorage,
    after: ConcurrentInternerMemberStorage,
    len: nat,
) -> bool {
    &&& after@ == before@
    &&& after.id() == before.id()
    &&& after.wasted() == counted(before.wasted(), len)
    &&& after.layout() == before.layout()
    &&& after.chunk_bytes() == before.chunk_bytes()
    &&& forall|i: int| 0 <= i < before@.len() ==> #[trigger] after.location(i) == before.location(i)
}

/// An arena without strings has wasted nothing and has one chunk, all zeros.
pub proof fn law_unused(storage: ConcurrentInternerMemberStorage)
    requires
        is_unused(storage),
    ensures
        storage@.len() == 0,
        storage.wasted() == 0,
        storage.layout().chunks == 1,
        storage.layout().free == STORAGE_CHUNK_SIZE,
        storage.layout().huge == 0,
        storage.chunk_bytes().len() == 1,
        storage.chunk_bytes()[0].len() == STORAGE_CHUNK_SIZE,
        forall|k: int|
            0 <= k < STORAGE_CHUNK_SIZE ==> #[trigger] storage.chunk_bytes()[0][k] == 0,
{
}

/// Storing a string puts it behind the others, which stay what and where they are, and changes
/// nothing else: neither the id nor the count of wasted bytes.
pub proof fn law_stored(
    before: ConcurrentInternerMemberStorage,
    after: ConcurrentInternerMemberStorage,
    s: Seq<char>,
)
    requires
        stored(before, after, s),
    ensures
        after@.len() == before@.len() + 1,
        after@[before@.len() as int] == s,
        forall|i: int|
            0 <= i < before@.len() ==> #[trigger] after@[i] == before@[i] && after.location(i)
                == before.location(i),
        after.id() == before.id(),
        after.wasted() == before.wasted(),
        after.layout() == before.layout().after(utf8(s).len()),
        after.location(before@.len() as int) == before.layout().place(utf8(s).len()),
        after.chunk_bytes() == written(
            before.chunk_bytes(),
            before.layout().place(utf8(s).len()),
            utf8(s),
        ),
{
    assert forall|i: int| 0 <= i < before@.len() implies #[trigger] after@[i] == before@[i]
        && after.location(i) == before.location(i) by {}
}

/// Noting wasted bytes adds to their count, and changes nothing else.
pub proof fn law_wasted_more(
    before: ConcurrentInternerMemberStorage,
    after: ConcurrentInternerMemberStorage,
    len: nat,
)
    requires
        wasted_more(before, after, len),
        before.wasted() + len <= usize::MAX,
    ensures
        after.wasted() == before.wasted() + len,
        after@ == before@,
        after.id() == before.id(),
        after.layout() == before.layout(),
        after.chunk_bytes() == before.chunk_bytes(),
        forall|i: int| 0 <= i < before@.len() ==> #[trigger] after.location(i) == before.location(i),
{
}

/// Copies bytes into a chunk, from `start` on.
fn copy_at(chunk: &mut Box<[u8; STORAGE_CHUNK_SIZE]>, start: usize, bytes: &[u8])
    requires
        start + bytes@.len() <= STORAGE_CHUNK_SIZE,
    ensures
        final(chunk)@ == overwrite(old(chunk)@, start as int, bytes@),
{
    let n: usize = bytes.len();
    let ghost before = chunk@;
    for k in 0..n
        invariant
            n == bytes@.len(),
            start + n <= STORAGE_CHUNK_SIZE,
            forall|i: int|
                0 <= i < STORAGE_CHUNK_SIZE ==> chunk@[i] == if start <= i < start + k {
                    bytes@[i - start]
                } else {
                    before[i]
                },
    {
        chunk[start + k] = bytes[k];
    }
    assert(chunk@ =~= overwrite(before, start as int, bytes@));
}

impl View for ConcurrentInternerMemberStorage {
    type V = Seq<Seq<char>>;

    closed spec fn view(&self) -> Seq<Seq<char>> {
        Seq::new(
            self.alloc_indices@.len(),
            |i: int| vstd::utf8::decode_utf8(self.bytes_at(self.alloc_indices@[i]@)),
        )
    }
}

impl ConcurrentInternerMemberStorage {
    /// The id of the arena.
    pub closed spec fn id(self) -> u8 {
        self.arena_id
    }

    /// The number of bytes that are stored in vain.
    pub closed spec fn wasted(self) -> nat {
        self.wasted_bytes as nat
    }

    /// How far the storage is filled.
    pub closed spec fn layout(self) -> Layout {
        Layout {
            chunks: self.chunks@.len(),
            free: self.bytes_left as nat,
            huge: self.huge_strings@.len(),
        }
    }

    /// Where the string with arena-local id `i` is.
    pub closed spec fn location(self, i: int) -> Location {
        self.alloc_indices@[i]@
    }

    /// The bytes of the chunks.
    pub closed spec fn chunk_bytes(self) -> Seq<Seq<u8>> {
        Seq::new(self.chunks@.len(), |c: int| self.chunks@[c]@)
    }

    /// The bytes at a location.
    spec fn bytes_at(self, location: Location) -> Seq<u8> {
        match location {
            Location::Chunk { chunk, start, len } => self.chunks@[chunk as int]@.subrange(
                start as int,
                start + len,
            ),
            Location::Huge(i) => utf8(self.huge_strings@[i as int]@),
        }
    }

    /// A location inside the used part of the storage.
    spec fn in_use(self, location: Location) -> bool {
        match location {
            Location::Chunk { chunk, start, len } => {
                &&& chunk < self.chunks@.len()
                &&& start + len <= STORAGE_CHUNK_SIZE
                &&& chunk == self.chunks@.len() - 1 ==> start + len <= STORAGE_CHUNK_SIZE
                    - self.bytes_left
            },
            Location::Huge(i) => i < self.huge_strings@.len(),
        }
    }

    /// Every string has its bytes in the used part of the storage, and they are UTF-8. How far the
    /// storage is filled, and where each string is, follows from the strings.
    pub closed spec fn wf(self) -> bool {
        &&& self.bytes_left <= STORAGE_CHUNK_SIZE
        &&& self.chunks@.len() >= 1
        &&& self.chunks@.len() + self.huge_strings@.len() <= self.alloc_indices@.len() + 1
        &&& self.alloc_indices@.len() <= MAX_LOCAL_IDS
        &&& self.layout() == layout_of(self@)
        &&& forall|i: int|
            0 <= i < self.alloc_indices@.len() ==> {
                &&& self.in_use(#[trigger] self.alloc_indices@[i]@)
                &&& vstd::utf8::valid_utf8(self.bytes_at(self.alloc_indices@[i]@))
            }
        &&& forall|i: int|
            0 <= i < self@.len() ==> #[trigger] self.location(i) == layout_of(self@.take(i)).place(
                utf8(self@[i]).len(),
            )
    }

    /// What is stored stays where it is: the part of the storage that `before` uses is the same in
    /// `after`.
    proof fn lemma_kept(before: Self, after: Self)
        requires
            before.wf(),
            before.alloc_indices@.is_prefix_of(after.alloc_indices@),
            before.huge_strings@.is_prefix_of(after.huge_strings@),
            before.chunks@.len() <= after.chunks@.len(),
            before.chunks@.len() == after.chunks@.len() ==> after.bytes_left <= before.bytes_left,
            after.bytes_left <= STORAGE_CHUNK_SIZE,
            forall|c: int, k: int|
                0 <= c < before.chunks@.len() && 0 <= k < STORAGE_CHUNK_SIZE && (c
                    < before.chunks@.len() - 1 || k < STORAGE_CHUNK_SIZE - before.bytes_left)
                    ==> #[trigger] after.chunks@[c]@[k] == before.chunks@[c]@[k],
        ensures
            forall|i: int|
                0 <= i < before.alloc_indices@.len() ==> {
                    &&& (#[trigger] after.alloc_indices@[i]) == before.alloc_indices@[i]
                    &&& after.in_use(after.alloc_indices@[i]@)
                    &&& after.bytes_at(after.alloc_indices@[i]@) == before.bytes_at(
                        before.alloc_indices@[i]@,
                    )
                },
    {
        assert forall|i: int| 0 <= i < before.alloc_indices@.len() implies {
            &&& (#[trigger] after.alloc_indices@[i]) == before.alloc_indices@[i]
            &&& after.in_use(after.alloc_indices@[i]@)
            &&& after.bytes_at(after.alloc_indices@[i]@) == before.bytes_at(
                before.alloc_indices@[i]@,
            )
        } by {
            assert(before.in_use(before.alloc_indices@[i]@));
            assert(after.bytes_at(before.alloc_indices@[i]@) =~= before.bytes_at(
                before.alloc_indices@[i]@,
            ));
        }
    }

    /// Where a string is follows from it and from the strings before it, so it never moves.
    pub proof fn law_placement(self, i: int)
        requires
            self.wf(),
            0 <= i < self@.len(),
        ensures
            self.location(i) == layout_of(self@.take(i)).place(utf8(self@[i]).len()),
    {
    }

    /// Every string is where its id says: a huge string is larger than a chunk and stands among the
    /// huge strings; any other lies with all its bytes in the used part of a chunk.
    pub proof fn law_location(self, i: int)
        requires
            self.wf(),
            0 <= i < self@.len(),
        ensures
            1 <= self.layout().chunks == self.chunk_bytes().len(),
            self.layout().free <= STORAGE_CHUNK_SIZE,
            match self.location(i) {
                Location::Huge(h) => {
                    &&& h < self.layout().huge
                    &&& utf8(self@[i]).len() > STORAGE_CHUNK_SIZE
                },
                Location::Chunk { chunk, start, len } => {
                    &&& chunk < self.layout().chunks
                    &&& len == utf8(self@[i]).len()
                    &&& start + len <= STORAGE_CHUNK_SIZE
                    &&& chunk == self.layout().chunks - 1 ==> start + len <= STORAGE_CHUNK_SIZE
                        - self.layout().free
                    &&& self.chunk_bytes()[chunk as int].subrange(start as int, start + len) == utf8(
                        self@[i],
                    )
                },
            },
    {
        lemma_layout_grows(self@, i, i);
        assert(self.in_use(self.alloc_indices@[i]@));
        assert(self.location(i) == layout_of(self@.take(i)).place(utf8(self@[i]).len()));
        vstd::utf8::decode_utf8_encode_utf8(self.bytes_at(self.alloc_indices@[i]@));
    }

    /// No two strings of an arena share a byte.
    pub proof fn law_strings_are_disjoint(self, i: int, j: int)
        requires
            self.wf(),
            0 <= i < self@.len(),
            0 <= j < self@.len(),
            i != j,
        ensures
            disjoint(self.location(i), self.location(j)),
            self.location(i) matches Location::Chunk { chunk, start, len } ==> (self.location(
                j,
            ) matches Location::Chunk { chunk: chunk_j, start: start_j, len: len_j } ==> chunk
                != chunk_j || start + len <= start_j || start_j + len_j <= start),
            self.location(i) matches Location::Huge(h) ==> self.location(j) != Location::Huge(h),
    {
        let (first, second) = if i < j {
            (i, j)
        } else {
            (j, i)
        };
        assert(self.location(first) == layout_of(self@.take(first)).place(
            utf8(self@[first]).len(),
        ));
        assert(self.location(second) == layout_of(self@.take(second)).place(
            utf8(self@[second]).len(),
        ));
        assert(self@.take(first + 1).drop_last() =~= self@.take(first));
        lemma_layout_grows(self@, first, first);
        lemma_layout_grows(self@, first + 1, second);
    }

    /// An arena never holds more strings than there are arena-local ids.
    pub proof fn law_capacity(self)
        requires
            self.wf(),
        ensures
            self@.len() <= MAX_LOCAL_IDS,
    {
    }

    /// The memory that is allocated but not used is bounded: the chunks of an arena take at most
    /// twice the bytes of the strings in them, and what is left of the last chunk.
    pub proof fn law_unused_memory_is_bounded(self)
        requires
            self.wf(),
        ensures
            self.layout() == layout_of(self@),
            self.layout().free <= STORAGE_CHUNK_SIZE,
            self.layout().chunks * STORAGE_CHUNK_SIZE <= 2 * chunked_bytes(self@)
                + self.layout().free,
    {
        lemma_chunks_are_filled(self@);
    }

    /// An empty arena.
    pub fn new(original_index: u8) -> (storage: ConcurrentInternerMemberStorage)
        ensures
            storage.wf(),
            storage.id() == original_index,
            is_unused(storage),
    {
        let mut chunks: Vec<Box<[u8; STORAGE_CHUNK_SIZE]>> = Vec::new();
        chunks.push(Box::new([0;STORAGE_CHUNK_SIZE]));
        let storage = ConcurrentInternerMemberStorage {
            arena_id: original_index,
            bytes_left: STORAGE_CHUNK_SIZE,
            alloc_indices: Vec::new(),
            chunks,
            huge_strings: Vec::new(),
            wasted_bytes: 0,
        };
        assert(storage@ =~= Seq::<Seq<char>>::empty());
        assert(storage.chunks@[0]@ =~= blank_chunk());
        assert(storage.chunk_bytes() =~= seq![blank_chunk()]);
        storage
    }

    /// The id of the arena.
    pub fn arena_id(&self) -> (id: u8)
        ensures
            id == self.id(),
    {
        self.arena_id
    }

    /// The number of strings in the arena.
    pub fn len(&self) -> (len: usize)
        ensures
            len == self@.len(),
    {
        self.alloc_indices.len()
    }

    /// The number of bytes that are stored in vain.
    pub fn wasted_bytes(&self) -> (bytes: usize)
        ensures
            bytes == self.wasted(),
    {
        self.wasted_bytes
    }

    /// Stores a string under the next arena-local id: in what is left of the last chunk if it fits
    /// there, in a new chunk if it fits one, and on its own if it does not.
    pub fn allocate(&mut self, s: &str) -> (istr: IStr)
        requires
            old(self).wf(),
            old(self)@.len() < MAX_LOCAL_IDS,
        ensures
            final(self).wf(),
            stored(*old(self), *final(self), s@),
            istr@ == (old(self).id(), old(self)@.len() as u32),
    {
        let ghost before = *self;
        let bytes = s.as_bytes();
        let len: usize = bytes.len();
        let composite_index: CompositeIndex;
        if len <= self.bytes_left {
            let chunk_index: usize = self.chunks.len() - 1;
            let start: usize = STORAGE_CHUNK_SIZE - self.bytes_left;
            copy_at(&mut self.chunks[chunk_index], start, bytes);
            self.bytes_left = self.bytes_left - len;
            composite_index = CompositeIndex::new_chunk_index(chunk_index, start as u16, len as u16);
        } else if len <= STORAGE_CHUNK_SIZE {
            let chunk_index: usize = self.chunks.len();
            let mut chunk: Box<[u8; STORAGE_CHUNK_SIZE]> = Box::new([0;STORAGE_CHUNK_SIZE]);
            assert(chunk@ =~= blank_chunk());
            copy_at(&mut chunk, 0, bytes);
            self.chunks.push(chunk);
            self.bytes_left = STORAGE_CHUNK_SIZE - len;
            composite_index = CompositeIndex::new_chunk_index(chunk_index, 0, len as u16);
        } else {
            let huge_index: usize = self.huge_strings.len();
            self.huge_strings.push(s.to_owned());
            composite_index = CompositeIndex::new_huge_index(huge_index);
        }
        let arena_local_index: usize = self.alloc_indices.len();
        self.alloc_indices.push(composite_index);
        proof {
            let location = composite_index@;
            assert(location == before.layout().place(utf8(s@).len()));
            assert(self.chunk_bytes() =~= written(before.chunk_bytes(), location, utf8(s@)));
            assert(self.bytes_at(location) =~= utf8(s@));
            law_utf8_injective(s@, s@);
            vstd::utf8::encode_utf8_decode_utf8(s@);
            Self::lemma_kept(before, *self);
            assert(self@ =~= before@.push(s@));
            assert(self@.drop_last() =~= before@);
            assert forall|i: int| 0 <= i < self@.len() implies #[trigger] self.location(i)
                == layout_of(self@.take(i)).place(utf8(self@[i]).len()) by {
                assert(self@.take(i) =~= before@.take(i));
                if i < before@.len() {
                    assert(self.location(i) == before.location(i));
                } else {
                    assert(before@.take(i) =~= before@);
                }
            }
        }
        IStr::new(self.arena_id, arena_local_index)
    }

    /// Notes that bytes of this arena were stored in vain.
    pub fn waste(&mut self, len: usize)
        requires
            old(self).wf(),
        ensures
            final(self).wf(),
            wasted_more(*old(self), *final(self), len as nat),
    {
        let ghost before = *self;
        self.wasted_bytes = self.wasted_bytes.wrapping_add(len);
        proof {
            Self::lemma_kept(before, *self);
            assert(self@ =~= before@);
            assert(self.chunk_bytes() =~= before.chunk_bytes());
            assert forall|i: int| 0 <= i < self@.len() implies #[trigger] self.location(i)
                == layout_of(self@.take(i)).place(utf8(self@[i]).len()) by {
                assert(self.location(i) == before.location(i));
            }
        }
    }

    /// The string with the arena-local id of `istr`.
    pub fn get_str(&self, istr: IStr) -> (s: &str)
        requires
            self.wf(),
            istr@.1 < self@.len(),
        ensures
            s@ == self@[istr@.1 as int],
    {
        let alloc_id: usize = istr.arena_local_id() as usize;
        let composite_index = self.alloc_indices[alloc_id];
        let ghost text = self@[alloc_id as int];
        proof {
            vstd::utf8::decode_utf8_encode_utf8(self.bytes_at(composite_index@));
        }
        if let Some(huge_index) = composite_index.huge_index() {
            let s = self.huge_strings[huge_index as usize].as_str();
            proof {
                law_utf8_injective(s@, text);
            }
            return s;
        }
        match composite_index.chunk_info() {
            Some((chunk_index, chunk_start_offset, len)) => {
                let start: usize = chunk_start_offset as usize;
                let end: usize = start + len as usize;
                let bytes = vstd::slice::slice_subrange(
                    self.chunks[chunk_index as usize].as_slice(),
                    start,
                    end,
                );
                decode(bytes, Ghost(text))
            },
            None => vstd::pervasive::unreached(),
        }
    }
}

} // verus!
