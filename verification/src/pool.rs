//! The pool of arenas that an interner hands out to its members.

use crate::index::IStr;
use crate::storage::{is_unused, ConcurrentInternerMemberStorage};
use vstd::prelude::*;

verus! {

/// The arenas of an interner that are on its shelf, and how many are handed out.
pub struct ConcurrentInternerStorage {
    /// The number of arenas that have been handed out.
    handed_out_count: u8,
    /// The arenas on the shelf.
    boxes: Vec<Box<ConcurrentInternerMemberStorage>>,
}

/// The arenas stand in the order of their ids.
pub open spec fn sorted_by_id(arenas: Seq<Box<ConcurrentInternerMemberStorage>>) -> bool {
    forall|i: int, j: int| 0 <= i < j < arenas.len() ==> arenas[i].id() <= arenas[j].id()
}

/// No two arenas have the same id.
pub open spec fn distinct_ids(arenas: Seq<Box<ConcurrentInternerMemberStorage>>) -> bool {
    forall|i: int, j: int| 0 <= i < j < arenas.len() ==> arenas[i].id() != arenas[j].id()
}

/// Every arena stands at the place that its id gives.
pub open spec fn organized(arenas: Seq<Box<ConcurrentInternerMemberStorage>>) -> bool {
    forall|i: int| 0 <= i < arenas.len() ==> (#[trigger] arenas[i]).id() == i
}

/// Some arena has the given id.
pub open spec fn has_id(arenas: Seq<Box<ConcurrentInternerMemberStorage>>, id: u8) -> bool {
    exists|i: int| 0 <= i < arenas.len() && (#[trigger] arenas[i]).id() == id
}

/// Arenas are in order if the one at each place has that place as its id; then the ids are those
/// below the number of arenas, each once.
pub proof fn law_organized(arenas: Seq<Box<ConcurrentInternerMemberStorage>>)
    ensures
        organized(arenas) <==> forall|i: int|
            0 <= i < arenas.len() ==> (#[trigger] arenas[i]).id() as int == i,
        organized(arenas) ==> distinct_ids(arenas) && sorted_by_id(arenas),
        organized(arenas) ==> forall|id: u8| #[trigger]
            has_id(arenas, id) <==> (id as int) < arenas.len(),
{
    if organized(arenas) {
        assert forall|id: u8| #[trigger] has_id(arenas, id) <==> (id as int) < arenas.len() by {
            if (id as int) < arenas.len() {
                assert(arenas[id as int].id() == id);
            }
        }
    }
}

/// Ids are distinct if no two places have the same, and an id is there if some place has it.
pub proof fn law_ids(arenas: Seq<Box<ConcurrentInternerMemberStorage>>, i: int, j: int, id: u8)
    requires
        0 <= i < arenas.len(),
        0 <= j < arenas.len(),
    ensures
        distinct_ids(arenas) && arenas[i].id() == arenas[j].id() ==> i == j,
        !has_id(arenas, id) ==> arenas[i].id() != id,
        has_id(arenas, arenas[i].id()),
{
}

impl ConcurrentInternerStorage {
    /// The number of arenas that are handed out.
    pub closed spec fn handed_out(self) -> nat {
        self.handed_out_count as nat
    }

    /// The arenas that are not handed out.
    pub closed spec fn shelf(self) -> Seq<Box<ConcurrentInternerMemberStorage>> {
        self.boxes@
    }

    /// The number of arenas in all.
    pub open spec fn arena_count(self) -> nat {
        self.handed_out() + self.shelf().len()
    }

    /// The arenas are numbered from zero, each id is given once, and once every arena is back
    /// they stand in order.
    pub open spec fn wf(self) -> bool {
        &&& 1 <= self.arena_count() <= u8::MAX
        &&& forall|i: int|
            0 <= i < self.shelf().len() ==> {
                &&& (#[trigger] self.shelf()[i]).wf()
                &&& self.shelf()[i].id() < self.arena_count()
            }
        &&& distinct_ids(self.shelf())
        &&& self.handed_out() == 0 ==> organized(self.shelf())
    }

    /// A pool of empty arenas.
    pub fn new(arena_count: u8) -> (pool: ConcurrentInternerStorage)
        requires
            arena_count > 0,
        ensures
            pool.wf(),
            pool.handed_out() == 0,
            pool.shelf().len() == arena_count,
            organized(pool.shelf()),
            forall|i: int| 0 <= i < arena_count ==> is_unused(*#[trigger] pool.shelf()[i]),
    {
        let mut boxes: Vec<Box<ConcurrentInternerMemberStorage>> = Vec::new();
        for i in 0..arena_count
            invariant
                boxes@.len() == i,
                organized(boxes@),
                forall|j: int|
                    0 <= j < i ==> (#[trigger] boxes@[j]).wf() && is_unused(*boxes@[j]),
        {
            boxes.push(Box::new(ConcurrentInternerMemberStorage::new(i)));
        }
        ConcurrentInternerStorage { handed_out_count: 0, boxes }
    }

    /// Takes the last arena off the shelf.
    pub fn take(&mut self) -> (storage: Box<ConcurrentInternerMemberStorage>)
        requires
            old(self).wf(),
            old(self).shelf().len() > 0,
        ensures
            final(self).wf(),
            storage == old(self).shelf().last(),
            final(self).shelf() == old(self).shelf().drop_last(),
            final(self).handed_out() == old(self).handed_out() + 1,
            !has_id(final(self).shelf(), storage.id()),
    {
        match self.boxes.pop() {
            Some(storage) => {
                self.handed_out_count = self.handed_out_count + 1;
                storage
            },
            None => vstd::pervasive::unreached(),
        }
    }

    /// Puts an arena back on the shelf, and brings the arenas in order once every one is back.
    pub fn put_back(&mut self, storage: Box<ConcurrentInternerMemberStorage>)
        requires
            old(self).wf(),
            storage.wf(),
            storage.id() < old(self).arena_count(),
            !has_id(old(self).shelf(), storage.id()),
        ensures
            final(self).wf(),
            final(self).handed_out() == old(self).handed_out() - 1,
            final(self).handed_out() > 0 ==> final(self).shelf() == old(self).shelf().push(storage),
            final(self).shelf().to_multiset() == old(self).shelf().push(storage).to_multiset(),
            final(self).handed_out() == 0 ==> forall|i: int|
                0 <= i < final(self).shelf().len() ==> (#[trigger] final(self).shelf()[i]).id() as int
                    == i,
    {
        proof {
            lemma_missing_id(self.boxes@, storage.id(), self.arena_count());
        }
        self.boxes.push(storage);
        self.handed_out_count = self.handed_out_count - 1;
        if self.handed_out_count == 0 {
            let ghost unsorted = self.boxes@;
            sort_by_arena_id(&mut self.boxes);
            proof {
                lemma_same_arenas(unsorted, self.boxes@);
                lemma_sorted_is_organized(self.boxes@);
            }
        }
    }

    /// Whether every arena on the shelf stands at the place that its id gives.
    pub fn is_organized(&self) -> (result: bool)
        ensures
            result == organized(self.shelf()),
    {
        let n: usize = self.boxes.len();
        for i in 0..n
            invariant
                n == self.boxes@.len(),
                forall|j: int| 0 <= j < i ==> (#[trigger] self.boxes@[j]).id() == j,
        {
            if self.boxes[i].arena_id() as usize != i {
                return false;
            }
        }
        true
    }

    /// The number of arenas on the shelf.
    pub fn len(&self) -> (len: usize)
        ensures
            len == self.shelf().len(),
    {
        self.boxes.len()
    }

    /// Whether an [`IStr`] leads to a string of the arena at the place that its arena id gives.
    pub fn is_readable(&self, istr: IStr) -> (result: bool)
        ensures
            result == (istr@.0 < self.shelf().len() && istr@.1
                < self.shelf()[istr@.0 as int]@.len()),
    {
        let i: usize = istr.arena_id() as usize;
        i < self.boxes.len() && (istr.arena_local_id() as usize) < self.boxes[i].len()
    }

    /// The arena at a place on the shelf.
    pub fn get(&self, i: usize) -> (storage: &ConcurrentInternerMemberStorage)
        requires
            i < self.shelf().len(),
        ensures
            *storage == *self.shelf()[i as int],
    {
        &self.boxes[i]
    }
}

/// Brings arenas in the order of their ids, by insertion.
fn sort_by_arena_id(arenas: &mut Vec<Box<ConcurrentInternerMemberStorage>>)
    ensures
        sorted_by_id(final(arenas)@),
        final(arenas)@.to_multiset() == old(arenas)@.to_multiset(),
{
    let n: usize = arenas.len();
    let ghost original = arenas@;
    for i in 0..n
        invariant
            arenas@.len() == n,
            arenas@.to_multiset() == original.to_multiset(),
            forall|a: int, b: int| 0 <= a < b < i ==> arenas@[a].id() <= arenas@[b].id(),
    {
        let id: u8 = arenas[i].arena_id();
        let mut place: usize = 0;
        while place < i && arenas[place].arena_id() <= id
            invariant
                place <= i < n == arenas@.len(),
                forall|a: int| 0 <= a < place ==> (#[trigger] arenas@[a]).id() <= id,
            decreases i - place,
        {
            place += 1;
        }
        let ghost before = arenas@;
        let arena = arenas.remove(i);
        arenas.insert(place, arena);
        proof {
            broadcast use vstd::seq_lib::group_to_multiset_ensures;

            assert(arenas@.to_multiset() =~= before.to_multiset());
        }
    }
}

/// Two lists of the same arenas have the same length, and ids that are distinct in one are distinct
/// in the other.
pub(crate) proof fn lemma_same_arenas(
    a: Seq<Box<ConcurrentInternerMemberStorage>>,
    b: Seq<Box<ConcurrentInternerMemberStorage>>,
)
    requires
        a.to_multiset() == b.to_multiset(),
        distinct_ids(a),
    ensures
        a.len() == b.len(),
        distinct_ids(b),
        forall|i: int| 0 <= i < b.len() ==> a.contains(#[trigger] b[i]),
{
    broadcast use vstd::seq_lib::group_to_multiset_ensures;

    a.to_multiset_ensures();
    b.to_multiset_ensures();
    assert forall|i: int| 0 <= i < b.len() implies a.contains(#[trigger] b[i]) by {
        assert(b.contains(b[i]));
        assert(b.to_multiset().count(b[i]) > 0);
        assert(a.to_multiset().count(b[i]) > 0);
    }
    assert(a.no_duplicates());
    a.lemma_multiset_has_no_duplicates();
    b.lemma_multiset_has_no_duplicates_conv();
}

proof fn lemma_sorted_is_organized(arenas: Seq<Box<ConcurrentInternerMemberStorage>>)
    requires
        sorted_by_id(arenas),
        distinct_ids(arenas),
        forall|i: int| 0 <= i < arenas.len() ==> (#[trigger] arenas[i]).id() < arenas.len(),
    ensures
        organized(arenas),
{
    assert forall|i: int| 0 <= i < arenas.len() implies (#[trigger] arenas[i]).id() == i by {
        lemma_id_at_least(arenas, i);
        lemma_id_at_most(arenas, i);
    }
}

/// Arenas with distinct ids below `n`, none of which is `id`, are fewer than `n`.
proof fn lemma_missing_id(arenas: Seq<Box<ConcurrentInternerMemberStorage>>, id: u8, n: nat)
    requires
        id < n,
        distinct_ids(arenas),
        !has_id(arenas, id),
        forall|i: int| 0 <= i < arenas.len() ==> (#[trigger] arenas[i]).id() < n,
    ensures
        arenas.len() < n,
{
    let ids = Seq::new(arenas.len(), |i: int| arenas[i].id() as int).push(id as int);
    assert(ids.no_duplicates());
    ids.unique_seq_to_set();
    vstd::set_lib::lemma_int_range(0, n as int);
    assert(ids.to_set().subset_of(vstd::set_lib::set_int_range(0, n as int)));
    vstd::set_lib::lemma_len_subset(ids.to_set(), vstd::set_lib::set_int_range(0, n as int));
}

proof fn lemma_id_at_least(arenas: Seq<Box<ConcurrentInternerMemberStorage>>, i: int)
    requires
        sorted_by_id(arenas),
        distinct_ids(arenas),
        0 <= i < arenas.len(),
    ensures
        arenas[i].id() >= i,
    decreases i,
{
    if i > 0 {
        lemma_id_at_least(arenas, i - 1);
    }
}

proof fn lemma_id_at_most(arenas: Seq<Box<ConcurrentInternerMemberStorage>>, i: int)
    requires
        sorted_by_id(arenas),
        distinct_ids(arenas),
        0 <= i < arenas.len(),
        forall|j: int| 0 <= j < arenas.len() ==> (#[trigger] arenas[j]).id() < arenas.len(),
    ensures
        arenas[i].id() <= i,
    decreases arenas.len() - i,
{
    if i < arenas.len() - 1 {
        lemma_id_at_most(arenas, i + 1);
    }
}

} // verus!
