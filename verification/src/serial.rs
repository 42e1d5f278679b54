//! An interner for one thread.

use crate::text::utf8;
use std::collections::HashMap;
use std::hash::BuildHasher;
use typed_arena::Arena;
use vstd::prelude::*;
use vstd::std_specs::hash::builds_valid_hashers;

verus! {

/// An arena that values are allocated from.
#[verifier::external_type_specification]
#[verifier::external_body]
#[verifier::reject_recursive_types(T)]
pub struct ExArena<T>(Arena<T>);

/// A map whose keys are strings, by the text of the keys.
pub open spec fn by_text(map: Map<&str, u32>) -> Map<Seq<char>, u32> {
    Map::new(
        |s: Seq<char>| exists|key: &str| #[trigger] map.contains_key(key) && key@ == s,
        |s: Seq<char>| map[choose|key: &str| #[trigger] map.contains_key(key) && key@ == s],
    )
}

/// `HashMap::get` with a string: the number under the text of `name`. The specification in `vstd`
/// speaks of keys that are known to obey its key model, and string slices are not among them.
#[verifier::external_body]
fn find<RS: BuildHasher>(map: &HashMap<&str, u32, RS>, name: &str) -> (idx: Option<u32>)
    requires
        builds_valid_hashers::<RS>(),
    ensures
        idx == by_text(map@).get(name@),
{
    map.get(name).copied()
}

/// `HashMap::insert` with a string: it sets the number under the text of `name`. As for [`find`], `vstd` says nothing of it for string slices.
#[verifier::external_body]
fn bind<'a, RS: BuildHasher>(map: &mut HashMap<&'a str, u32, RS>, name: &'a str, idx: u32)
    requires
        builds_valid_hashers::<RS>(),
    ensures
        by_text(final(map)@) == by_text(old(map)@).insert(name@, idx),
{
    map.insert(name, idx);
}

/// `Arena::alloc_str`: a copy of the string, in the arena.
#[verifier::external_body]
fn alloc_str<'a>(arena: &'a Arena<u8>, s: &str) -> (copy: &'a str)
    requires
        utf8(s@).len() <= usize::MAX / 4,
    ensures
        copy@ == s@,
{
    arena.alloc_str(s)
}

/// How many strings can be numbered: a number takes 32 bits.
pub const MAX_NUMBERS: u64 = 0x1_0000_0000;

/// Every number is a `u32`, and every `u32` can be a number.
pub proof fn law_limits()
    ensures
        MAX_NUMBERS == u32::MAX + 1,
{
}

/// An interner that numbers strings in the order in which they first come. The hash builder has to
/// give equal strings equal hashes.
///
/// The view is the sequence of the strings: the string with number `i` is the one at `i`.
#[verifier::reject_recursive_types(RS)]
pub struct Interner<'a, RS> {
    map: HashMap<&'a str, u32, RS>,
    vec: Vec<&'a str>,
    arena: &'a Arena<u8>,
}

impl<'a, RS> View for Interner<'a, RS> {
    type V = Seq<Seq<char>>;

    closed spec fn view(&self) -> Seq<Seq<char>> {
        Seq::new(self.vec@.len(), |i: int| self.vec@[i]@)
    }
}

impl<'a, RS> Interner<'a, RS> {
    /// The map gives every string its number, if the hash builder keeps to its contract.
    pub closed spec fn wf(self) -> bool {
        builds_valid_hashers::<RS>() ==> {
            &&& forall|i: int|
                0 <= i < self@.len() ==> by_text(self.map@).contains_key(#[trigger] self@[i])
                    && by_text(self.map@)[self@[i]] == i
            &&& forall|s: Seq<char>| #[trigger]
                by_text(self.map@).contains_key(s) ==> by_text(self.map@)[s] < self@.len()
                    && self@[by_text(self.map@)[s] as int] == s
        }
    }

    /// A number stands for one string: no string has two, if the hash builder keeps to its
    /// contract.
    pub proof fn law_one_number_per_string(self, i: int, j: int)
        requires
            self.wf(),
            builds_valid_hashers::<RS>(),
            0 <= i < self@.len(),
            0 <= j < self@.len(),
        ensures
            self@[i] == self@[j] <==> i == j,
    {
        assert(by_text(self.map@)[self@[i]] == i);
        assert(by_text(self.map@)[self@[j]] == j);
    }

    /// There are no more strings than numbers, if the hash builder keeps to its contract.
    pub proof fn law_capacity(self)
        requires
            self.wf(),
            builds_valid_hashers::<RS>(),
        ensures
            self@.len() <= MAX_NUMBERS,
    {
        if self@.len() > MAX_NUMBERS {
            assert(by_text(self.map@)[self@[MAX_NUMBERS as int]] == MAX_NUMBERS);
        }
    }

    /// The number of strings.
    pub fn len(&self) -> (len: usize)
        ensures
            len == self@.len(),
    {
        self.vec.len()
    }

    /// The string with a number.
    pub fn lookup(&self, idx: u32) -> (s: &str)
        requires
            idx < self@.len(),
        ensures
            s@ == self@[idx as int],
    {
        self.vec[idx as usize]
    }
}

impl<'a, RS: Default + BuildHasher> Interner<'a, RS> {
    /// An interner without strings, which keeps its strings in `arena`.
    pub fn new(arena: &'a Arena<u8>) -> (interner: Interner<'a, RS>)
        ensures
            interner.wf(),
            interner@ == Seq::<Seq<char>>::empty(),
    {
        let mut map: HashMap<&'a str, u32, RS> = HashMap::default();
        map.reserve(1024);
        let interner = Interner { map, vec: Vec::new(), arena };
        assert(interner@ =~= Seq::<Seq<char>>::empty());
        interner
    }

    /// The number of a string, if it has one.
    pub fn number_of(&self, name: &str) -> (idx: Option<u32>)
        requires
            self.wf(),
            builds_valid_hashers::<RS>(),
        ensures
            match idx {
                Some(idx) => idx < self@.len() && self@[idx as int] == name@,
                None => !self@.contains(name@),
            },
    {
        find(&self.map, name)
    }

    /// The number of a string; a string that is new gets the next number.
    pub fn intern(&mut self, name: &str) -> (idx: u32)
        requires
            old(self).wf(),
            builds_valid_hashers::<RS>(),
            old(self)@.len() < MAX_NUMBERS || old(self)@.contains(name@),
            utf8(name@).len() <= usize::MAX / 4,
        ensures
            final(self).wf(),
            idx < final(self)@.len(),
            final(self)@[idx as int] == name@,
            if old(self)@.contains(name@) {
                final(self)@ == old(self)@
            } else {
                &&& final(self)@ == old(self)@.push(name@)
                &&& idx == old(self)@.len()
            },
    {
        let ghost before = *self;
        if let Some(idx) = find(&self.map, name) {
            return idx;
        }
        let idx: u32 = self.vec.len() as u32;
        let name = alloc_str(self.arena, name);
        bind(&mut self.map, name, idx);
        self.vec.push(name);
        assert(self@ =~= before@.push(name@));
        idx
    }
}

} // verus!
