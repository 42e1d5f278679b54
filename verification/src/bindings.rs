//! What is interned: which string is bound to which [`IStr`].

use crate::index::IStr;
use crate::storage::ConcurrentInternerMemberStorage;
use crate::table::{lists_entries, Table};
use crate::text::{decode, law_utf8_injective, utf8};
use std::hash::BuildHasher;
use vstd::prelude::*;
use vstd::std_specs::hash::builds_valid_hashers;

verus! {

/// The strings with the [`IStr`]s that a table binds them to.
pub open spec fn bound_in(entries: Set<(Seq<u8>, u32)>) -> Set<(Seq<char>, IStr)> {
    Set::new(|binding: (Seq<char>, IStr)| entries.contains((utf8(binding.0), binding.1.spec_raw())))
}

/// A string is bound.
pub open spec fn is_bound(bound: Set<(Seq<char>, IStr)>, s: Seq<char>) -> bool {
    exists|istr: IStr| bound.contains((s, istr))
}

/// No string is bound to two [`IStr`]s.
pub open spec fn single_valued(bound: Set<(Seq<char>, IStr)>) -> bool {
    forall|s: Seq<char>, a: IStr, b: IStr| #[trigger]
        bound.contains((s, a)) && #[trigger] bound.contains((s, b)) ==> a == b
}

/// The [`IStr`] of each string that is bound.
pub open spec fn bindings_of(bound: Set<(Seq<char>, IStr)>) -> Map<Seq<char>, IStr> {
    Map::new(
        |s: Seq<char>| is_bound(bound, s),
        |s: Seq<char>| choose|istr: IStr| bound.contains((s, istr)),
    )
}

/// Every key of a table is the text of a string.
pub open spec fn keys_are_text(entries: Set<(Seq<u8>, u32)>) -> bool {
    forall|key: Seq<u8>, value: u32| #[trigger]
        entries.contains((key, value)) ==> exists|s: Seq<char>| key == #[trigger] utf8(s)
}

/// The bindings, listed: every one is there, and none is there twice.
pub open spec fn lists_bindings(
    entries: Seq<(String, IStr)>,
    bindings: Map<Seq<char>, IStr>,
) -> bool {
    &&& forall|i: int|
        0 <= i < entries.len() ==> bindings.contains_key((#[trigger] entries[i]).0@)
            && bindings[entries[i].0@] == entries[i].1
    &&& forall|i: int, j: int|
        0 <= i < j < entries.len() ==> (#[trigger] entries[i]).0@ != (#[trigger] entries[j]).0@
    &&& forall|s: Seq<char>| #[trigger]
        bindings.contains_key(s) ==> exists|i: int|
            0 <= i < entries.len() && (#[trigger] entries[i]).0@ == s
}

/// The [`IStr`] that a string ends up with when it is entered under `istr`: the one it is bound to
/// already, or else `istr`.
pub open spec fn winner(bindings: Map<Seq<char>, IStr>, s: Seq<char>, istr: IStr) -> IStr {
    if bindings.contains_key(s) {
        bindings[s]
    } else {
        istr
    }
}

/// The bindings once a string is entered under `istr`: the first binding of a string stays.
pub open spec fn entered(bindings: Map<Seq<char>, IStr>, s: Seq<char>, istr: IStr) -> Map<
    Seq<char>,
    IStr,
> {
    bindings.insert(s, winner(bindings, s, istr))
}

/// Entering a string binds it, and the first binding of a string is the one that lasts: entering it
/// again changes nothing and gives the first one. Other strings are not touched.
pub proof fn law_entered(
    bindings: Map<Seq<char>, IStr>,
    s: Seq<char>,
    istr: IStr,
    again: IStr,
    other: Seq<char>,
)
    requires
        other != s,
    ensures
        entered(bindings, s, istr).contains_key(s),
        entered(bindings, s, istr)[s] == winner(bindings, s, istr),
        !bindings.contains_key(s) ==> winner(bindings, s, istr) == istr,
        bindings.contains_key(s) ==> winner(bindings, s, istr) == bindings[s],
        bindings.contains_key(s) ==> entered(bindings, s, istr) == bindings,
        entered(bindings, s, istr).contains_key(other) <==> bindings.contains_key(other),
        bindings.contains_key(other) ==> entered(bindings, s, istr)[other] == bindings[other],
        winner(entered(bindings, s, istr), s, again) == winner(bindings, s, istr),
        entered(entered(bindings, s, istr), s, again) == entered(bindings, s, istr),
{
    if bindings.contains_key(s) {
        assert(entered(bindings, s, istr) =~= bindings);
    }
    assert(entered(entered(bindings, s, istr), s, again) =~= entered(bindings, s, istr));
}

/// A list of the bindings has one place for each string that is bound, with its [`IStr`], and no
/// others.
pub proof fn law_lists_bindings(entries: Seq<(String, IStr)>, bindings: Map<Seq<char>, IStr>)
    requires
        lists_bindings(entries, bindings),
    ensures
        forall|i: int|
            0 <= i < entries.len() ==> bindings.contains_key((#[trigger] entries[i]).0@)
                && entries[i].1 == bindings[entries[i].0@],
        forall|i: int, j: int|
            0 <= i < entries.len() && 0 <= j < entries.len() && (#[trigger] entries[i]).0@ == (
            #[trigger] entries[j]).0@ ==> i == j,
        bindings.dom().finite(),
        entries.len() == bindings.dom().len(),
        forall|s: Seq<char>| #[trigger]
            bindings.contains_key(s) ==> exists|i: int|
                0 <= i < entries.len() && (#[trigger] entries[i]).0@ == s && entries[i].1
                    == bindings[s],
{
    let keys = Seq::new(entries.len(), |i: int| entries[i].0@);
    assert(keys.no_duplicates());
    keys.unique_seq_to_set();
    assert forall|s: Seq<char>| keys.to_set().contains(s) == bindings.dom().contains(s) by {
        if bindings.contains_key(s) {
            let i = choose|i: int| 0 <= i < entries.len() && (#[trigger] entries[i]).0@ == s;
            assert(keys[i] == s);
        }
    }
    assert(keys.to_set() =~= bindings.dom());
}

/// A string is bound if some [`IStr`] is bound to it.
pub proof fn law_is_bound(bound: Set<(Seq<char>, IStr)>, s: Seq<char>, istr: IStr)
    ensures
        bound.contains((s, istr)) ==> is_bound(bound, s) && bindings_of(bound).contains_key(s),
        is_bound(bound, s) ==> exists|first: IStr| bound.contains((s, first)),
        bindings_of(bound).contains_key(s) ==> bound.contains((s, bindings_of(bound)[s])),
{
}

/// The arena holds `s` under the arena-local id of `istr`.
pub open spec fn holds(storage: ConcurrentInternerMemberStorage, istr: IStr, s: Seq<char>) -> bool {
    &&& istr@.1 < storage@.len()
    &&& storage@[istr@.1 as int] == s
}

/// The arena holds every string that is bound to one of its ids.
pub open spec fn backs(
    storage: ConcurrentInternerMemberStorage,
    bound: Set<(Seq<char>, IStr)>,
) -> bool {
    forall|s: Seq<char>, istr: IStr| #[trigger]
        bound.contains((s, istr)) && istr@.0 == storage.id() ==> holds(storage, istr, s)
}

/// No two strings are bound to the same [`IStr`], and every [`IStr`] belongs to one of the
/// `arena_count` arenas.
pub open spec fn bound_wf(bound: Set<(Seq<char>, IStr)>, arena_count: nat) -> bool {
    &&& forall|a: Seq<char>, b: Seq<char>, istr: IStr| #[trigger]
        bound.contains((a, istr)) && #[trigger] bound.contains((b, istr)) ==> a == b
    &&& forall|s: Seq<char>, istr: IStr| #[trigger]
        bound.contains((s, istr)) ==> istr@.0 < arena_count
}

/// If no string is bound to two [`IStr`]s, the one that a string is bound to is its binding.
pub proof fn law_single_valued_bindings(
    bound: Set<(Seq<char>, IStr)>,
    s: Seq<char>,
    istr: IStr,
)
    requires
        single_valued(bound),
    ensures
        bound.contains((s, istr)) <==> bindings_of(bound).contains_key(s) && bindings_of(bound)[s]
            == istr,
{
}

/// A new entry of the table is a new binding.
pub(crate) proof fn lemma_new_entry(entries: Set<(Seq<u8>, u32)>, s: Seq<char>, istr: IStr)
    ensures
        bound_in(entries.insert((utf8(s), istr.spec_raw()))) == bound_in(entries).insert((s, istr)),
        keys_are_text(entries) ==> keys_are_text(entries.insert((utf8(s), istr.spec_raw()))),
{
    let after = bound_in(entries.insert((utf8(s), istr.spec_raw())));
    assert forall|t: Seq<char>, other: IStr| #[trigger]
        after.contains((t, other)) == bound_in(entries).insert((s, istr)).contains((t, other)) by {
        law_utf8_injective(s, t);
        IStr::law_view_injective(istr, other);
    }
    assert(after =~= bound_in(entries).insert((s, istr)));
}

/// A binding of a string that is not bound adds to the others.
pub(crate) proof fn lemma_new_binding(bound: Set<(Seq<char>, IStr)>, s: Seq<char>, istr: IStr)
    requires
        single_valued(bound),
        !is_bound(bound, s),
    ensures
        single_valued(bound.insert((s, istr))),
        bindings_of(bound.insert((s, istr))) == bindings_of(bound).insert(s, istr),
{
    let after = bound.insert((s, istr));
    assert(after.contains((s, istr)));
    assert forall|t: Seq<char>| is_bound(after, t) == (is_bound(bound, t) || t == s) by {
        if is_bound(bound, t) {
            let other = choose|other: IStr| bound.contains((t, other));
            assert(after.contains((t, other)));
        }
    }
    assert forall|t: Seq<char>| #[trigger] is_bound(after, t) implies bindings_of(after)[t]
        == bindings_of(bound).insert(s, istr)[t] by {
        law_single_valued_bindings(after, t, bindings_of(bound).insert(s, istr)[t]);
        if t != s {
            law_single_valued_bindings(bound, t, bindings_of(bound)[t]);
        }
    }
    assert(bindings_of(after) =~= bindings_of(bound).insert(s, istr));
}

/// The string of an entry is bound to the number of the entry.
pub(crate) proof fn lemma_entry_is_binding(entries: Set<(Seq<u8>, u32)>, s: Seq<char>, raw: u32)
    ensures
        entries.contains((utf8(s), raw)) <==> bound_in(entries).contains(
            (s, IStr::spec_from_raw(raw)),
        ),
{
    IStr::law_raw_round_trip(raw);
}

/// Lists the bindings of a table. The bytes of every key are UTF-8, so every key can be read as a
/// string.
pub(crate) fn list_bindings<RS: Clone + BuildHasher>(table: &Table<RS>) -> (result: Vec<
    (String, IStr),
>)
    requires
        keys_are_text(table.entries()),
        builds_valid_hashers::<RS>() ==> single_valued(bound_in(table.entries())),
    ensures
        forall|i: int|
            0 <= i < result@.len() ==> bound_in(table.entries()).contains(
                ((#[trigger] result@[i]).0@, result@[i].1),
            ),
        builds_valid_hashers::<RS>() ==> lists_bindings(
            result@,
            bindings_of(bound_in(table.entries())),
        ),
{
    let list = table.list();
    let ghost entries = table.entries();
    let ghost bound = bound_in(entries);
    let n: usize = list.len();
    let mut result: Vec<(String, IStr)> = Vec::new();
    for i in 0..n
        invariant
            n == list@.len(),
            entries == table.entries(),
            bound == bound_in(entries),
            keys_are_text(entries),
            forall|j: int|
                0 <= j < list@.len() ==> entries.contains(((#[trigger] list@[j]).0@, list@[j].1)),
            result@.len() == i,
            forall|j: int|
                0 <= j < i ==> {
                    &&& utf8((#[trigger] result@[j]).0@) == list@[j].0@
                    &&& result@[j].1 == IStr::spec_from_raw(list@[j].1)
                    &&& bound.contains((result@[j].0@, result@[j].1))
                },
    {
        assert(entries.contains((list@[i as int].0@, list@[i as int].1)));
        let ghost text = choose|s: Seq<char>| list@[i as int].0@ == #[trigger] utf8(s);
        let key = decode(list[i].0.as_slice(), Ghost(text)).to_owned();
        let istr = IStr::from_raw(list[i].1);
        proof {
            lemma_entry_is_binding(entries, text, list@[i as int].1);
        }
        result.push((key, istr));
    }
    proof {
        if builds_valid_hashers::<RS>() {
            let bindings = bindings_of(bound);
            assert forall|s: Seq<char>| #[trigger] bindings.contains_key(s) implies exists|i: int|
                0 <= i < result@.len() && (#[trigger] result@[i]).0@ == s by {
                let istr = bindings[s];
                assert(bound.contains((s, istr)));
                assert(entries.contains((utf8(s), istr.spec_raw())));
                let i = choose|i: int|
                    0 <= i < list@.len() && (#[trigger] list@[i]).0@ == utf8(s) && list@[i].1
                        == istr.spec_raw();
                law_utf8_injective(result@[i].0@, s);
            }
            assert forall|i: int| 0 <= i < result@.len() implies bindings.contains_key(
                (#[trigger] result@[i]).0@,
            ) && bindings[result@[i].0@] == result@[i].1 by {
                law_single_valued_bindings(bound, result@[i].0@, result@[i].1);
            }
            assert forall|i: int, j: int| 0 <= i < j < result@.len() implies (
            #[trigger] result@[i]).0@ != (#[trigger] result@[j]).0@ by {
                assert(list@[i].0@ != list@[j].0@);
            }
        }
    }
    result
}

} // verus!
