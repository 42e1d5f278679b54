//! The interner, its members and its frozen form.
//!
//! An interner is a hash table that binds strings to [`IStr`]s, and a pool of arenas that hold the
//! text. A member is an arena that is handed out. Interning a string takes three steps:
//! [`ConcurrentInterner::lookup`] reads the table, [`ConcurrentInternerMember::allocate`] writes
//! to the member's own arena alone, and [`ConcurrentInternerMember::publish`] enters the new
//! string in the table unless another member was first. Several members can be at it at the same
//! time, with their steps in any order.

use crate::bindings::{
    backs, bindings_of, bound_in, bound_wf, entered, holds, is_bound, keys_are_text,
    law_single_valued_bindings, lemma_entry_is_binding, lemma_new_binding, lemma_new_entry,
    list_bindings, lists_bindings, single_valued, winner,
};
use crate::index::{IStr, MAX_LOCAL_IDS};
use crate::pool::{distinct_ids, has_id, lemma_same_arenas, organized, ConcurrentInternerStorage};
use crate::sso::{SSOStringRef, MAX_LEN};
use crate::storage::{is_unused, stored, wasted_more, ConcurrentInternerMemberStorage};
use crate::table::Table;
use crate::text::utf8;
use std::hash::BuildHasher;
use vstd::prelude::*;
use vstd::std_specs::hash::builds_valid_hashers;

verus! {

//----------------------------------------------------------------------------
// ConcurrentInterner

/// A string interner that many members can use at a time.
///
/// An [`IStr`] means something to the interner that it comes from alone: another interner may have
/// another string under it, or none.
///
/// `RS` is a hash builder, such as `ahash::RandomState`, or `rustc_hash::FxHasher` wrapped by a
/// `BuildHasherDefault`. That every member gets the same [`IStr`] for a string rests on the hash
/// builder keeping to its contract; that an [`IStr`] reads back as the string does not.
#[verifier::reject_recursive_types(RS)]
pub struct ConcurrentInterner<RS> {
    /// The hash table from strings to interned strings.
    indices: Table<RS>,
    /// The arenas, as far as they are not handed out. Their number is fixed at the start.
    storage: ConcurrentInternerStorage,
}

impl<RS> ConcurrentInterner<RS> {
    /// The strings that were entered in the table, with the [`IStr`]s that they are bound to.
    pub closed spec fn bound(self) -> Set<(Seq<char>, IStr)> {
        bound_in(self.indices.entries())
    }

    /// The interned strings.
    pub open spec fn bindings(self) -> Map<Seq<char>, IStr> {
        bindings_of(self.bound())
    }

    /// The pool of arenas.
    pub closed spec fn pool(self) -> ConcurrentInternerStorage {
        self.storage
    }

    /// The arenas that are not handed out.
    pub open spec fn shelf(self) -> Seq<Box<ConcurrentInternerMemberStorage>> {
        self.pool().shelf()
    }

    /// The number of arenas in all.
    pub open spec fn arena_count(self) -> nat {
        self.pool().arena_count()
    }

    /// Every [`IStr`] that a string is bound to is bound to that string alone, and the arenas on the
    /// shelf hold the strings that are bound to their ids. If the hash builder keeps to its
    /// contract, no string is bound twice.
    pub closed spec fn wf(self) -> bool {
        &&& keys_are_text(self.indices.entries())
        &&& self.pool().wf()
        &&& bound_wf(self.bound(), self.arena_count())
        &&& forall|i: int|
            0 <= i < self.shelf().len() ==> backs(*#[trigger] self.shelf()[i], self.bound())
        &&& builds_valid_hashers::<RS>() ==> single_valued(self.bound())
    }

    /// The member has an arena of this interner, and the arena holds the strings that are bound
    /// to its ids.
    pub open spec fn owns(self, member: ConcurrentInternerMember) -> bool {
        &&& member.storage().wf()
        &&& member.id() < self.arena_count()
        &&& !has_id(self.shelf(), member.id())
        &&& backs(member.storage(), self.bound())
    }

    /// The arenas on the shelf are numbered below the number of arenas, no two of them alike, and
    /// they stand in order once every arena is back.
    pub proof fn law_shelf(self)
        requires
            self.wf(),
        ensures
            1 <= self.arena_count() <= u8::MAX,
            self.arena_count() == self.pool().handed_out() + self.shelf().len(),
            distinct_ids(self.shelf()),
            forall|i: int|
                0 <= i < self.shelf().len() ==> {
                    &&& (#[trigger] self.shelf()[i]).id() < self.arena_count()
                    &&& self.shelf()[i].wf()
                },
            self.pool().handed_out() == 0 ==> organized(self.shelf()),
            forall|i: int, j: int|
                0 <= i < j < self.shelf().len() ==> (#[trigger] self.shelf()[i]).id() != (
                #[trigger] self.shelf()[j]).id(),
            self.pool().handed_out() == 0 ==> forall|i: int|
                0 <= i < self.shelf().len() ==> (#[trigger] self.shelf()[i]).id() as int == i,
    {
    }

    /// The arena of a member is none of those on the shelf, and it has the strings that are bound to
    /// its ids, each in its place.
    pub proof fn law_owns(self, member: ConcurrentInternerMember, s: Seq<char>, istr: IStr, i: int)
        requires
            self.owns(member),
        ensures
            member.id() < self.arena_count(),
            0 <= i < self.shelf().len() ==> self.shelf()[i].id() != member.id(),
            self.bound().contains((s, istr)) && istr@.0 == member.id() ==> istr@.1
                < member.storage()@.len() && member.storage()@[istr@.1 as int] == s,
    {
    }

    /// What was interned can be read back: once every member has given its arena back, an [`IStr`]
    /// that a string is bound to leads to that string, and the arenas are in order.
    pub proof fn law_interned_reads_back(self, s: Seq<char>, istr: IStr)
        requires
            self.wf(),
            self.pool().handed_out() == 0,
            self.bound().contains((s, istr)),
        ensures
            organized(self.shelf()),
            istr@.0 < self.shelf().len(),
            holds(*self.shelf()[istr@.0 as int], istr, s),
            self.shelf()[istr@.0 as int].id() == istr@.0,
            istr@.1 < self.shelf()[istr@.0 as int]@.len(),
            self.shelf()[istr@.0 as int]@[istr@.1 as int] == s,
    {
    }

    /// An [`IStr`] stands for one string: no two strings are bound to the same one.
    pub proof fn law_istr_identifies_string(self, a: Seq<char>, b: Seq<char>, istr: IStr)
        requires
            self.wf(),
            self.bound().contains((a, istr)),
            self.bound().contains((b, istr)),
        ensures
            a == b,
    {
    }

    /// If the hash builder keeps to its contract, a string is bound to one [`IStr`] at most, so that
    /// comparing two of them compares the strings.
    pub proof fn law_bindings(self, a: Seq<char>, b: Seq<char>, istr: IStr)
        requires
            self.wf(),
            builds_valid_hashers::<RS>(),
        ensures
            self.bound().contains((a, istr)) <==> self.bindings().contains_key(a)
                && self.bindings()[a] == istr,
            self.bindings().contains_key(a) && self.bindings().contains_key(b) ==> (
            self.bindings()[a] == self.bindings()[b] <==> a == b),
    {
        law_single_valued_bindings(self.bound(), a, istr);
        if self.bindings().contains_key(a) && self.bindings().contains_key(b) {
            law_single_valued_bindings(self.bound(), a, self.bindings()[a]);
            law_single_valued_bindings(self.bound(), b, self.bindings()[b]);
        }
    }
}

impl<RS: Send + Sync + Clone + BuildHasher> ConcurrentInterner<RS> {
    /// Create an interner with one or more arenas.
    ///
    /// In most cases, the number of arenas will be equal to the number of threads
    /// simultaneously using the interner.
    pub fn new(arena_count: u8, random_state: RS) -> (interner: ConcurrentInterner<RS>)
        requires
            arena_count > 0,
        ensures
            interner.wf(),
            interner.bound() == Set::<(Seq<char>, IStr)>::empty(),
            interner.bindings() == Map::<Seq<char>, IStr>::empty(),
            interner.arena_count() == arena_count,
            interner.pool().handed_out() == 0,
            organized(interner.shelf()),
            forall|i: int| 0 <= i < arena_count ==> is_unused(*#[trigger] interner.shelf()[i]),
    {
        let interner = ConcurrentInterner {
            indices: Table::new(64, random_state),
            storage: ConcurrentInternerStorage::new(arena_count),
        };
        assert(interner.bound() =~= Set::<(Seq<char>, IStr)>::empty());
        assert(interner.bindings() =~= Map::<Seq<char>, IStr>::empty());
        interner
    }

    /// Get a member of the interner, which can be used to intern strings.
    pub fn get_member(&mut self) -> (member: ConcurrentInternerMember)
        requires
            old(self).wf(),
            old(self).shelf().len() > 0,
        ensures
            final(self).wf(),
            final(self).owns(member),
            member.storage() == *old(self).shelf().last(),
            final(self).shelf() == old(self).shelf().drop_last(),
            final(self).pool().handed_out() == old(self).pool().handed_out() + 1,
            final(self).bound() == old(self).bound(),
            forall|other: ConcurrentInternerMember| #[trigger]
                old(self).owns(other) ==> final(self).owns(other) && other.id() != member.id(),
    {
        let storage = self.storage.take();
        ConcurrentInternerMember { storage }
    }

    /// The [`IStr`] of a string, if the string is interned.
    pub fn lookup(&self, s: &str) -> (istr: Option<IStr>)
        requires
            self.wf(),
            utf8(s@).len() <= MAX_LEN,
        ensures
            istr matches Some(istr) ==> self.bound().contains((s@, istr)),
            builds_valid_hashers::<RS>() ==> istr == self.bindings().get(s@),
    {
        let sref = SSOStringRef::new(s);
        match self.indices.get(sref.as_bytes()) {
            Some(raw) => {
                proof {
                    lemma_entry_is_binding(self.indices.entries(), s@, raw);
                    if builds_valid_hashers::<RS>() {
                        law_single_valued_bindings(self.bound(), s@, IStr::spec_from_raw(raw));
                    }
                }
                Some(IStr::from_raw(raw))
            },
            None => {
                proof {
                    if builds_valid_hashers::<RS>() && is_bound(self.bound(), s@) {
                        let istr = choose|istr: IStr| self.bound().contains((s@, istr));
                        assert(self.indices.entries().contains((utf8(s@), istr.spec_raw())));
                    }
                }
                None
            },
        }
    }

    /// Read a string.
    ///
    /// If you want to retrieve a large number of strings, you can call
    /// [`ConcurrentInterner::freeze`] followed by [`FrozenInterner::get_str`] to read the data in
    /// place.
    pub fn get_string(&self, istr: IStr) -> (s: String)
        requires
            self.wf(),
            organized(self.shelf()),
            istr@.0 < self.shelf().len(),
            istr@.1 < self.shelf()[istr@.0 as int]@.len(),
        ensures
            s@ == self.shelf()[istr@.0 as int]@[istr@.1 as int],
            forall|t: Seq<char>| #[trigger] self.bound().contains((t, istr)) ==> s@ == t,
    {
        self.storage.get(istr.arena_id() as usize).get_str(istr).to_owned()
    }

    /// Make an interner read-only, allowing for faster string accesses.
    pub fn freeze(self) -> (frozen: FrozenInterner<RS>)
        requires
            self.wf(),
            organized(self.shelf()),
        ensures
            frozen.wf(),
            frozen.bound() == self.bound(),
            frozen.shelf() == self.shelf(),
            frozen.arena_count() == self.arena_count(),
    {
        FrozenInterner { indices: self.indices, frozen_storage: self.storage }
    }

    /// The interned strings with their [`IStr`]s, in no particular order.
    pub fn entries(&self) -> (entries: Vec<(String, IStr)>)
        requires
            self.wf(),
        ensures
            forall|i: int|
                0 <= i < entries@.len() ==> self.bound().contains(
                    ((#[trigger] entries@[i]).0@, entries@[i].1),
                ),
            builds_valid_hashers::<RS>() ==> lists_bindings(entries@, self.bindings()),
    {
        list_bindings(&self.indices)
    }

    /// Whether there is an arena on the shelf to hand out.
    pub fn has_member(&self) -> (result: bool)
        ensures
            result == (self.shelf().len() > 0),
    {
        self.storage.len() > 0
    }

    /// Whether an [`IStr`] leads to a string on the shelf.
    pub fn is_readable(&self, istr: IStr) -> (result: bool)
        ensures
            result == (istr@.0 < self.shelf().len() && istr@.1
                < self.shelf()[istr@.0 as int]@.len()),
    {
        self.storage.is_readable(istr)
    }

    /// Whether every arena on the shelf stands at the place that its id gives.
    pub fn is_organized(&self) -> (result: bool)
        ensures
            result == organized(self.shelf()),
    {
        self.storage.is_organized()
    }
}

//----------------------------------------------------------------------------
// ConcurrentInternerMember

/// A member of an interner: the one that may write to an arena.
pub struct ConcurrentInternerMember {
    storage: Box<ConcurrentInternerMemberStorage>,
}

impl ConcurrentInternerMember {
    /// The member's arena.
    pub closed spec fn storage(self) -> ConcurrentInternerMemberStorage {
        *self.storage
    }

    /// The id of the member's arena.
    pub open spec fn id(self) -> u8 {
        self.storage().id()
    }

    /// The number of strings in the member's arena.
    pub fn len(&self) -> (len: usize)
        ensures
            len == self.storage()@.len(),
    {
        self.storage.len()
    }

    /// The number of bytes in the member's arena that another member was first to provide.
    pub fn wasted_bytes(&self) -> (bytes: usize)
        ensures
            bytes == self.storage().wasted(),
    {
        self.storage.wasted_bytes()
    }

    /// Stores a string in the member's arena, without a look at the table.
    pub fn allocate(&mut self, s: &str) -> (istr: IStr)
        requires
            old(self).storage().wf(),
            old(self).storage()@.len() < MAX_LOCAL_IDS,
        ensures
            final(self).storage().wf(),
            stored(old(self).storage(), final(self).storage(), s@),
            istr@ == (old(self).id(), old(self).storage()@.len() as u32),
            forall|bound: Set<(Seq<char>, IStr)>| #[trigger]
                backs(old(self).storage(), bound) ==> backs(final(self).storage(), bound),
    {
        self.storage.allocate(s)
    }

    /// Enters a string of the member's arena in the table, unless the string is there already:
    /// then the [`IStr`] that it is bound to is the one to use, and the freshly stored text is
    /// wasted.
    pub fn publish<RS: Send + Sync + Clone + BuildHasher>(
        &mut self,
        owner: &mut ConcurrentInterner<RS>,
        istr: IStr,
    ) -> (result: IStr)
        requires
            old(owner).wf(),
            old(owner).owns(*old(self)),
            istr@.0 == old(self).id(),
            istr@.1 < old(self).storage()@.len(),
            utf8(old(self).storage()@[istr@.1 as int]).len() <= MAX_LEN,
        ensures
            final(owner).wf(),
            final(owner).owns(*final(self)),
            final(owner).pool() == old(owner).pool(),
            ({
                let s = old(self).storage()@[istr@.1 as int];
                ||| {
                    &&& result == istr
                    &&& final(owner).bound() == old(owner).bound().insert((s, istr))
                    &&& *final(self) == *old(self)
                }
                ||| {
                    &&& old(owner).bound().contains((s, result))
                    &&& final(owner).bound() == old(owner).bound()
                    &&& wasted_more(old(self).storage(), final(self).storage(), utf8(s).len())
                }
            }),
            builds_valid_hashers::<RS>() ==> {
                let s = old(self).storage()@[istr@.1 as int];
                &&& result == winner(old(owner).bindings(), s, istr)
                &&& final(owner).bindings() == entered(old(owner).bindings(), s, istr)
                &&& if old(owner).bindings().contains_key(s) {
                    wasted_more(old(self).storage(), final(self).storage(), utf8(s).len())
                } else {
                    *final(self) == *old(self)
                }
            },
            forall|other: ConcurrentInternerMember| #[trigger]
                old(owner).owns(other) && other.id() != old(self).id() ==> final(owner).owns(other),
    {
        let ghost s = self.storage()@[istr@.1 as int];
        let ghost entries = owner.indices.entries();
        let ghost bound = owner.bound();
        let text = self.storage.get_str(istr);
        let len: usize = text.len();
        let potential_new_key = SSOStringRef::new(text);
        let key = vstd::slice::slice_to_vec(potential_new_key.as_bytes());
        proof {
            lemma_new_entry(entries, s, istr);
            if builds_valid_hashers::<RS>() && is_bound(bound, s) {
                let first = choose|first: IStr| bound.contains((s, first));
                assert(entries.contains((utf8(s), first.spec_raw())));
            }
        }
        match owner.indices.bind(key, istr.to_raw()) {
            Some(raw) => {
                proof {
                    let first = IStr::spec_from_raw(raw);
                    lemma_entry_is_binding(entries, s, raw);
                    assert(is_bound(bound, s));
                    if builds_valid_hashers::<RS>() {
                        law_single_valued_bindings(bound, s, first);
                        assert(entered(bindings_of(bound), s, istr) =~= bindings_of(bound));
                    }
                }
                self.storage.waste(len);
                IStr::from_raw(raw)
            },
            None => {
                proof {
                    if builds_valid_hashers::<RS>() {
                        lemma_new_binding(bound, s, istr);
                    }
                }
                istr
            },
        }
    }

    /// Intern a string slice, returning a unique [`IStr`].
    ///
    /// Every member that interns the same string gets the same [`IStr`], if the hash builder keeps
    /// to its contract.
    pub fn intern<RS: Send + Sync + Clone + BuildHasher>(
        &mut self,
        owner: &mut ConcurrentInterner<RS>,
        s: &str,
    ) -> (result: IStr)
        requires
            old(owner).wf(),
            old(owner).owns(*old(self)),
            utf8(s@).len() <= MAX_LEN,
            old(self).storage()@.len() < MAX_LOCAL_IDS || builds_valid_hashers::<RS>() && old(
                owner,
            ).bindings().contains_key(s@),
        ensures
            final(owner).wf(),
            final(owner).owns(*final(self)),
            final(owner).pool() == old(owner).pool(),
            final(owner).bound() == old(owner).bound().insert((s@, result)),
            final(self).id() == old(self).id(),
            final(self).storage()@ == old(self).storage()@ || final(self).storage()@ == old(
                self,
            ).storage()@.push(s@),
            forall|i: int|
                0 <= i < old(self).storage()@.len() ==> #[trigger] final(self).storage().location(i)
                    == old(self).storage().location(i),
            builds_valid_hashers::<RS>() ==> match old(owner).bindings().get(s@) {
                Some(first) => {
                    &&& result == first
                    &&& *final(owner) == *old(owner)
                    &&& *final(self) == *old(self)
                },
                None => {
                    &&& result@ == (old(self).id(), old(self).storage()@.len() as u32)
                    &&& final(owner).bindings() == old(owner).bindings().insert(s@, result)
                    &&& stored(old(self).storage(), final(self).storage(), s@)
                },
            },
            forall|other: ConcurrentInternerMember| #[trigger]
                old(owner).owns(other) && other.id() != old(self).id() ==> final(owner).owns(other),
    {
        if let Some(istr) = owner.lookup(s) {
            assert(owner.bound().insert((s@, istr)) =~= owner.bound());
            return istr;
        }
        let istr = self.allocate(s);
        let result = self.publish(owner, istr);
        assert(owner.bound() =~= old(owner).bound().insert((s@, result)));
        result
    }

    /// Gives the member's arena back to the interner.
    pub fn release<RS: Send + Sync + Clone + BuildHasher>(self, owner: &mut ConcurrentInterner<RS>)
        requires
            old(owner).wf(),
            old(owner).owns(self),
        ensures
            final(owner).wf(),
            final(owner).bound() == old(owner).bound(),
            final(owner).arena_count() == old(owner).arena_count(),
            final(owner).pool().handed_out() == old(owner).pool().handed_out() - 1,
            final(owner).pool().handed_out() > 0 ==> final(owner).shelf() == old(
                owner,
            ).shelf().push(Box::new(self.storage())),
            final(owner).pool().handed_out() == 0 ==> organized(final(owner).shelf()),
            final(owner).shelf().to_multiset() == old(owner).shelf().push(
                Box::new(self.storage()),
            ).to_multiset(),
            forall|other: ConcurrentInternerMember| #[trigger]
                old(owner).owns(other) && other.id() != self.id() ==> final(owner).owns(other),
    {
        let ghost pushed = owner.shelf().push(self.storage);
        owner.storage.put_back(self.storage);
        proof {
            lemma_same_arenas(pushed, owner.shelf());
        }
    }
}

//----------------------------------------------------------------------------
// FrozenInterner

/// Read-only version of [`ConcurrentInterner`].
///
/// Allows read access from multiple threads without synchronization in exchange for not allowing
/// any writes.
#[verifier::reject_recursive_types(RS)]
pub struct FrozenInterner<RS> {
    indices: Table<RS>,
    frozen_storage: ConcurrentInternerStorage,
}

impl<RS> FrozenInterner<RS> {
    /// The strings with the [`IStr`]s that they are bound to.
    pub closed spec fn bound(self) -> Set<(Seq<char>, IStr)> {
        bound_in(self.indices.entries())
    }

    /// The interned strings.
    pub open spec fn bindings(self) -> Map<Seq<char>, IStr> {
        bindings_of(self.bound())
    }

    /// The arenas.
    pub closed spec fn shelf(self) -> Seq<Box<ConcurrentInternerMemberStorage>> {
        self.frozen_storage.shelf()
    }

    /// The number of arenas, those that were handed out when the interner was frozen included.
    pub closed spec fn arena_count(self) -> nat {
        self.frozen_storage.arena_count()
    }

    /// As for a [`ConcurrentInterner`], with the arenas in order.
    pub closed spec fn wf(self) -> bool {
        &&& keys_are_text(self.indices.entries())
        &&& self.frozen_storage.wf()
        &&& organized(self.shelf())
        &&& bound_wf(self.bound(), self.arena_count())
        &&& forall|i: int|
            0 <= i < self.shelf().len() ==> backs(*#[trigger] self.shelf()[i], self.bound())
        &&& builds_valid_hashers::<RS>() ==> single_valued(self.bound())
    }

    /// What was interned can be read: if no arena was handed out when the interner was frozen, an
    /// [`IStr`] that a string is bound to leads to that string.
    pub proof fn law_interned_reads_back(self, s: Seq<char>, istr: IStr)
        requires
            self.wf(),
            self.shelf().len() == self.arena_count(),
            self.bound().contains((s, istr)),
        ensures
            istr@.0 < self.shelf().len(),
            holds(*self.shelf()[istr@.0 as int], istr, s),
            istr@.1 < self.shelf()[istr@.0 as int]@.len(),
            self.shelf()[istr@.0 as int]@[istr@.1 as int] == s,
    {
    }
}

impl<RS: Send + Sync + Clone + BuildHasher> FrozenInterner<RS> {
    /// Freezes an interner. Identical to [`ConcurrentInterner::freeze`].
    pub fn from(interner: ConcurrentInterner<RS>) -> (frozen: FrozenInterner<RS>)
        requires
            interner.wf(),
            organized(interner.shelf()),
        ensures
            frozen.wf(),
            frozen.bound() == interner.bound(),
            frozen.shelf() == interner.shelf(),
            frozen.arena_count() == interner.arena_count(),
    {
        interner.freeze()
    }

    /// The interned strings with their [`IStr`]s, in no particular order.
    pub fn entries(&self) -> (entries: Vec<(String, IStr)>)
        requires
            self.wf(),
        ensures
            forall|i: int|
                0 <= i < entries@.len() ==> self.bound().contains(
                    ((#[trigger] entries@[i]).0@, entries@[i].1),
                ),
            builds_valid_hashers::<RS>() ==> lists_bindings(entries@, self.bindings()),
    {
        list_bindings(&self.indices)
    }

    /// Whether an [`IStr`] leads to a string.
    pub fn is_readable(&self, istr: IStr) -> (result: bool)
        ensures
            result == (istr@.0 < self.shelf().len() && istr@.1
                < self.shelf()[istr@.0 as int]@.len()),
    {
        self.frozen_storage.is_readable(istr)
    }

    /// Read a string in place.
    pub fn get_str(&self, istr: IStr) -> (s: &str)
        requires
            self.wf(),
            istr@.0 < self.shelf().len(),
            istr@.1 < self.shelf()[istr@.0 as int]@.len(),
        ensures
            s@ == self.shelf()[istr@.0 as int]@[istr@.1 as int],
            forall|t: Seq<char>| #[trigger] self.bound().contains((t, istr)) ==> s@ == t,
    {
        self.frozen_storage.get(istr.arena_id() as usize).get_str(istr)
    }
}

} // verus!
