//! What holds however the steps of several members are interleaved.
//!
//! The steps that change something shared or stored are two: a member stores a string in its own
//! arena, and a member enters a stored string in the table. A history is any sequence of such
//! steps by any members.

use crate::bindings::{entered, holds, winner};
use crate::index::{IStr, MAX_LOCAL_IDS};
use crate::interner::{ConcurrentInterner, ConcurrentInternerMember};
use crate::pool::{distinct_ids, has_id, organized};
use crate::storage::{is_unused, stored};
use vstd::prelude::*;

verus! {

//----------------------------------------------------------------------------
// Histories

/// One step of one member.
pub enum Step {
    /// The member with the arena `arena` stores `s` there.
    Store { arena: int, s: Seq<char> },
    /// A member enters the string that it has stored under `istr`.
    Enter { istr: IStr },
}

/// The bindings in the table, and for each arena the strings in it.
pub struct World {
    pub bindings: Map<Seq<char>, IStr>,
    pub arenas: Seq<Seq<Seq<char>>>,
}

impl World {
    /// Nothing is interned, and the arenas are empty.
    pub open spec fn initial(arena_count: nat) -> World {
        World {
            bindings: Map::empty(),
            arenas: Seq::new(arena_count, |i: int| Seq::empty()),
        }
    }

    /// Some arena has a string under `istr`.
    pub open spec fn has(self, istr: IStr) -> bool {
        istr@.0 < self.arenas.len() && istr@.1 < self.arenas[istr@.0 as int].len()
    }

    /// The string that an arena has under `istr`.
    pub open spec fn text(self, istr: IStr) -> Seq<char> {
        self.arenas[istr@.0 as int][istr@.1 as int]
    }

    /// The step can be taken: an arena is stored to only while it has ids left, and only what is
    /// stored is entered.
    pub open spec fn allows(self, step: Step) -> bool {
        match step {
            Step::Store { arena, s } => 0 <= arena < self.arenas.len() && self.arenas[arena].len()
                < MAX_LOCAL_IDS,
            Step::Enter { istr } => self.has(istr),
        }
    }

    /// The world after a step.
    pub open spec fn next(self, step: Step) -> World {
        match step {
            Step::Store { arena, s } => World {
                arenas: self.arenas.update(arena, self.arenas[arena].push(s)),
                ..self
            },
            Step::Enter { istr } => World {
                bindings: entered(self.bindings, self.text(istr), istr),
                ..self
            },
        }
    }

    /// Every interned string is what the arenas have under its [`IStr`].
    pub open spec fn consistent(self) -> bool {
        forall|s: Seq<char>| #[trigger]
            self.bindings.contains_key(s) ==> self.has(self.bindings[s]) && self.text(
                self.bindings[s],
            ) == s
    }

    /// What is interned or stored in `earlier` is so, in the same place, in this world.
    pub open spec fn extends(self, earlier: World) -> bool {
        &&& earlier.arenas.len() == self.arenas.len()
        &&& forall|s: Seq<char>| #[trigger]
            earlier.bindings.contains_key(s) ==> self.bindings.contains_key(s) && self.bindings[s]
                == earlier.bindings[s]
        &&& forall|istr: IStr| #[trigger]
            earlier.has(istr) ==> self.has(istr) && self.text(istr) == earlier.text(istr)
    }
}

/// The world after the first `n` steps of a history.
pub open spec fn world_after(arena_count: nat, history: Seq<Step>, n: nat) -> World
    decreases n,
{
    if n == 0 {
        World::initial(arena_count)
    } else {
        world_after(arena_count, history, (n - 1) as nat).next(history[n - 1])
    }
}

/// Every step of the history can be taken where it stands.
pub open spec fn possible(arena_count: nat, history: Seq<Step>) -> bool {
    forall|i: int|
        0 <= i < history.len() ==> world_after(arena_count, history, i as nat).allows(
            #[trigger] history[i],
        )
}

proof fn lemma_step(world: World, step: Step)
    requires
        world.consistent(),
        world.allows(step),
    ensures
        world.next(step).consistent(),
        world.next(step).extends(world),
{
    let after = world.next(step);
    assert forall|istr: IStr| #[trigger] world.has(istr) implies after.has(istr) && after.text(istr)
        == world.text(istr) by {}
    assert forall|s: Seq<char>| #[trigger] after.bindings.contains_key(s) implies after.has(
        after.bindings[s],
    ) && after.text(after.bindings[s]) == s by {
        if world.bindings.contains_key(s) {
            assert(world.has(world.bindings[s]));
        }
    }
}

/// In every history what is interned reads back, and nothing that is interned or stored is ever
/// changed or moved.
pub proof fn law_history(arena_count: nat, history: Seq<Step>, earlier: nat, later: nat)
    requires
        possible(arena_count, history),
        earlier <= later <= history.len(),
    ensures
        world_after(arena_count, history, later).consistent(),
        world_after(arena_count, history, later).extends(
            world_after(arena_count, history, earlier),
        ),
    decreases later,
{
    if later > 0 {
        let before = (later - 1) as nat;
        if earlier < later {
            law_history(arena_count, history, earlier, before);
        } else {
            law_history(arena_count, history, before, before);
        }
        assert(world_after(arena_count, history, before).allows(history[before as int]));
        lemma_step(world_after(arena_count, history, before), history[before as int]);
    }
}

/// What is stored in an arena stays at its place, an arena only grows, and what is bound stays bound
/// to the same [`IStr`], however the history goes on.
pub proof fn law_nothing_moves(arena_count: nat, history: Seq<Step>, earlier: nat, later: nat)
    requires
        possible(arena_count, history),
        earlier <= later <= history.len(),
    ensures
        world_after(arena_count, history, earlier).arenas.len() == arena_count,
        world_after(arena_count, history, later).arenas.len() == arena_count,
        forall|a: int|
            0 <= a < arena_count ==> (#[trigger] world_after(
                arena_count,
                history,
                earlier,
            ).arenas[a]).is_prefix_of(world_after(arena_count, history, later).arenas[a]),
        forall|s: Seq<char>| #[trigger]
            world_after(arena_count, history, earlier).bindings.contains_key(s) ==> world_after(
                arena_count,
                history,
                later,
            ).bindings.contains_key(s) && world_after(arena_count, history, later).bindings[s]
                == world_after(arena_count, history, earlier).bindings[s],
    decreases later,
{
    let start = world_after(arena_count, history, earlier);
    let end = world_after(arena_count, history, later);
    if earlier < later {
        let n = (later - 1) as nat;
        let middle = world_after(arena_count, history, n);
        law_nothing_moves(arena_count, history, earlier, n);
        assert(middle.allows(history[n as int]));
        assert forall|a: int| 0 <= a < arena_count implies (
        #[trigger] start.arenas[a]).is_prefix_of(end.arenas[a]) by {
            assert(start.arenas[a].is_prefix_of(middle.arenas[a]));
            assert(middle.arenas[a] =~= end.arenas[a].take(middle.arenas[a].len() as int));
            assert(start.arenas[a] =~= end.arenas[a].take(start.arenas[a].len() as int));
        }
    } else if later > 0 {
        let n = (later - 1) as nat;
        law_nothing_moves(arena_count, history, n, n);
        assert(world_after(arena_count, history, n).allows(history[n as int]));
    }
}

/// Every string that is bound after some steps of a history is what the arena of its [`IStr`] has at
/// the place of its [`IStr`].
pub proof fn law_bound_strings_are_stored(
    arena_count: nat,
    history: Seq<Step>,
    n: nat,
    s: Seq<char>,
)
    requires
        possible(arena_count, history),
        n <= history.len(),
        world_after(arena_count, history, n).bindings.contains_key(s),
    ensures
        ({
            let world = world_after(arena_count, history, n);
            let istr = world.bindings[s];
            &&& istr@.0 < world.arenas.len()
            &&& istr@.1 < world.arenas[istr@.0 as int].len()
            &&& world.arenas[istr@.0 as int][istr@.1 as int] == s
        }),
{
    law_history(arena_count, history, n, n);
}

/// Whoever enters a string, and whenever, gets the same [`IStr`] for it: two members that enter
/// the same string at steps `i` and `j` of a history, each under an [`IStr`] of its own, come
/// away with one and the same, and it reads back as that string ever after.
pub proof fn law_same_string_same_istr(
    arena_count: nat,
    history: Seq<Step>,
    i: nat,
    j: nat,
    a: IStr,
    b: IStr,
    s: Seq<char>,
)
    requires
        possible(arena_count, history),
        i <= j < history.len(),
        history[i as int] == (Step::Enter { istr: a }),
        history[j as int] == (Step::Enter { istr: b }),
        world_after(arena_count, history, i).text(a) == s,
        world_after(arena_count, history, j).text(b) == s,
    ensures
        winner(world_after(arena_count, history, i).bindings, s, a) == winner(
            world_after(arena_count, history, j).bindings,
            s,
            b,
        ),
        world_after(arena_count, history, history.len()).has(
            winner(world_after(arena_count, history, i).bindings, s, a),
        ),
        world_after(arena_count, history, history.len()).text(
            winner(world_after(arena_count, history, i).bindings, s, a),
        ) == s,
{
    let after_i = world_after(arena_count, history, i + 1);
    assert(after_i.bindings.contains_key(s));
    if i < j {
        law_history(arena_count, history, i + 1, j);
    }
    law_history(arena_count, history, i + 1, history.len());
}

/// Whoever finds a string in the table gets the same [`IStr`] as whoever enters it, before or
/// after: a look at the table after `i` steps, and a member that enters the string at step `j`.
pub proof fn law_lookup_agrees(
    arena_count: nat,
    history: Seq<Step>,
    i: nat,
    j: nat,
    b: IStr,
    s: Seq<char>,
)
    requires
        possible(arena_count, history),
        i <= history.len(),
        j < history.len(),
        world_after(arena_count, history, i).bindings.contains_key(s),
        history[j as int] == (Step::Enter { istr: b }),
        world_after(arena_count, history, j).text(b) == s,
    ensures
        world_after(arena_count, history, i).bindings[s] == winner(
            world_after(arena_count, history, j).bindings,
            s,
            b,
        ),
{
    assert(world_after(arena_count, history, j + 1).bindings.contains_key(s));
    if i <= j {
        law_history(arena_count, history, i, j);
    } else {
        law_history(arena_count, history, j + 1, i);
    }
}

/// Whoever enters two different strings, and whenever, gets two different [`IStr`]s for them.
pub proof fn law_distinct_strings_distinct_istrs(
    arena_count: nat,
    history: Seq<Step>,
    i: nat,
    j: nat,
    a: IStr,
    b: IStr,
)
    requires
        possible(arena_count, history),
        i < history.len(),
        j < history.len(),
        history[i as int] == (Step::Enter { istr: a }),
        history[j as int] == (Step::Enter { istr: b }),
        world_after(arena_count, history, i).text(a) != world_after(arena_count, history, j).text(b),
    ensures
        winner(
            world_after(arena_count, history, i).bindings,
            world_after(arena_count, history, i).text(a),
            a,
        ) != winner(
            world_after(arena_count, history, j).bindings,
            world_after(arena_count, history, j).text(b),
            b,
        ),
{
    law_same_string_same_istr(
        arena_count,
        history,
        i,
        i,
        a,
        a,
        world_after(arena_count, history, i).text(a),
    );
    law_same_string_same_istr(
        arena_count,
        history,
        j,
        j,
        b,
        b,
        world_after(arena_count, history, j).text(b),
    );
}

//----------------------------------------------------------------------------
// Interners and their members are worlds
//
// What the laws below ask of an operation is what its contract gives, if the hash builder keeps to
// its own contract.

/// The world is what the table, the arenas on the shelf and the arenas of the members make up, and
/// the members are all that there are.
pub open spec fn represents<RS>(
    world: World,
    interner: ConcurrentInterner<RS>,
    members: Seq<ConcurrentInternerMember>,
) -> bool {
    &&& interner.wf()
    &&& members.len() == interner.pool().handed_out()
    &&& world.bindings == interner.bindings()
    &&& world.arenas.len() == interner.arena_count()
    &&& forall|i: int|
        0 <= i < interner.shelf().len() ==> (#[trigger] interner.shelf()[i]).id()
            < interner.arena_count() && world.arenas[interner.shelf()[i].id() as int]
            == interner.shelf()[i]@
    &&& forall|k: int|
        0 <= k < members.len() ==> interner.owns(#[trigger] members[k])
            && world.arenas[members[k].id() as int] == members[k].storage()@
    &&& forall|k: int, l: int|
        0 <= k < l < members.len() ==> (#[trigger] members[k]).id() != (#[trigger] members[l]).id()
}

/// Some member has the arena with the given id.
pub open spec fn has_member(members: Seq<ConcurrentInternerMember>, id: u8) -> bool {
    exists|k: int| 0 <= k < members.len() && (#[trigger] members[k]).id() == id
}

/// A new interner is the initial world.
pub proof fn law_new_is_initial<RS>(interner: ConcurrentInterner<RS>, arena_count: nat)
    requires
        interner.wf(),
        interner.bindings() == Map::<Seq<char>, IStr>::empty(),
        interner.arena_count() == arena_count,
        interner.pool().handed_out() == 0,
        organized(interner.shelf()),
        forall|i: int|
            0 <= i < interner.shelf().len() ==> is_unused(*#[trigger] interner.shelf()[i]),
    ensures
        represents(World::initial(arena_count), interner, Seq::empty()),
{
}

/// Handing out an arena leaves the world as it is.
pub proof fn law_get_member_keeps_world<RS>(
    world: World,
    before: ConcurrentInterner<RS>,
    after: ConcurrentInterner<RS>,
    members: Seq<ConcurrentInternerMember>,
    member: ConcurrentInternerMember,
)
    requires
        represents(world, before, members),
        before.shelf().len() > 0,
        after.wf(),
        after.owns(member),
        member.storage() == *before.shelf().last(),
        after.shelf() == before.shelf().drop_last(),
        after.pool().handed_out() == before.pool().handed_out() + 1,
        after.bound() == before.bound(),
        forall|other: ConcurrentInternerMember| #[trigger]
            before.owns(other) ==> after.owns(other) && other.id() != member.id(),
    ensures
        represents(world, after, members.push(member)),
{
    assert(before.shelf()[before.shelf().len() - 1].id() == member.id());
    assert forall|i: int| 0 <= i < after.shelf().len() implies (#[trigger] after.shelf()[i]).id()
        < after.arena_count() && world.arenas[after.shelf()[i].id() as int] == after.shelf()[i]@ by {
        assert(before.shelf()[i] == after.shelf()[i]);
    }
}

/// Taking an arena back leaves the world as it is.
pub proof fn law_release_keeps_world<RS>(
    world: World,
    before: ConcurrentInterner<RS>,
    after: ConcurrentInterner<RS>,
    members: Seq<ConcurrentInternerMember>,
    k: int,
)
    requires
        represents(world, before, members),
        0 <= k < members.len(),
        after.wf(),
        after.bound() == before.bound(),
        after.arena_count() == before.arena_count(),
        after.pool().handed_out() == before.pool().handed_out() - 1,
        after.shelf().to_multiset() == before.shelf().push(
            Box::new(members[k].storage()),
        ).to_multiset(),
        forall|other: ConcurrentInternerMember| #[trigger]
            before.owns(other) && other.id() != members[k].id() ==> after.owns(other),
    ensures
        represents(world, after, members.remove(k)),
{
    broadcast use vstd::seq_lib::group_to_multiset_ensures;

    let pushed = before.shelf().push(Box::new(members[k].storage()));
    assert forall|i: int| 0 <= i < after.shelf().len() implies (#[trigger] after.shelf()[i]).id()
        < after.arena_count() && world.arenas[after.shelf()[i].id() as int] == after.shelf()[i]@ by {
        assert(after.shelf().contains(after.shelf()[i]));
        assert(after.shelf().to_multiset().count(after.shelf()[i]) > 0);
        assert(pushed.to_multiset().count(after.shelf()[i]) > 0);
        let j = choose|j: int| 0 <= j < pushed.len() && pushed[j] == after.shelf()[i];
        if j < before.shelf().len() {
            assert(before.shelf()[j] == after.shelf()[i]);
        } else {
            assert(before.owns(members[k]));
        }
    }
    let rest = members.remove(k);
    assert forall|l: int| 0 <= l < rest.len() implies after.owns(#[trigger] rest[l])
        && world.arenas[rest[l].id() as int] == rest[l].storage()@ by {
        let m = if l < k {
            l
        } else {
            l + 1
        };
        assert(rest[l] == members[m]);
        assert(before.owns(members[m]));
    }
    assert forall|a: int, b: int| 0 <= a < b < rest.len() implies (#[trigger] rest[a]).id() != (
    #[trigger] rest[b]).id() by {
        let ma = if a < k {
            a
        } else {
            a + 1
        };
        let mb = if b < k {
            b
        } else {
            b + 1
        };
        assert(rest[a] == members[ma]);
        assert(rest[b] == members[mb]);
    }
}

/// Storing a string in a member's arena is a step of the world, and one that the world allows.
pub proof fn law_allocate_is_a_step<RS>(
    world: World,
    interner: ConcurrentInterner<RS>,
    members: Seq<ConcurrentInternerMember>,
    k: int,
    after: ConcurrentInternerMember,
    s: Seq<char>,
)
    requires
        represents(world, interner, members),
        0 <= k < members.len(),
        members[k].storage()@.len() < MAX_LOCAL_IDS,
        stored(members[k].storage(), after.storage(), s),
        interner.owns(after),
    ensures
        world.allows(Step::Store { arena: members[k].id() as int, s }),
        represents(
            world.next(Step::Store { arena: members[k].id() as int, s }),
            interner,
            members.update(k, after),
        ),
{
    let next = world.next(Step::Store { arena: members[k].id() as int, s });
    assert(interner.owns(members[k]));
    assert forall|i: int| 0 <= i < interner.shelf().len() implies (
    #[trigger] interner.shelf()[i]).id() < interner.arena_count()
        && next.arenas[interner.shelf()[i].id() as int] == interner.shelf()[i]@ by {
        assert(interner.shelf()[i].id() != members[k].id());
    }
    let updated = members.update(k, after);
    assert forall|l: int| 0 <= l < updated.len() implies interner.owns(#[trigger] updated[l])
        && next.arenas[updated[l].id() as int] == updated[l].storage()@ by {
        if l != k {
            assert(interner.owns(members[l]));
            assert(members[l].id() != members[k].id());
        }
    }
    assert forall|a: int, b: int| 0 <= a < b < updated.len() implies (#[trigger] updated[a]).id()
        != (#[trigger] updated[b]).id() by {
        assert(members[a].id() != members[b].id());
    }
}

/// Entering a stored string in the table is a step of the world, and one that the world allows.
pub proof fn law_publish_is_a_step<RS>(
    world: World,
    before: ConcurrentInterner<RS>,
    after: ConcurrentInterner<RS>,
    members: Seq<ConcurrentInternerMember>,
    k: int,
    member: ConcurrentInternerMember,
    istr: IStr,
)
    requires
        represents(world, before, members),
        0 <= k < members.len(),
        istr@.0 == members[k].id(),
        istr@.1 < members[k].storage()@.len(),
        after.wf(),
        after.owns(member),
        after.pool() == before.pool(),
        after.bindings() == entered(
            before.bindings(),
            members[k].storage()@[istr@.1 as int],
            istr,
        ),
        member.id() == members[k].id(),
        member.storage()@ == members[k].storage()@,
        forall|other: ConcurrentInternerMember| #[trigger]
            before.owns(other) && other.id() != members[k].id() ==> after.owns(other),
    ensures
        world.allows(Step::Enter { istr }),
        world.text(istr) == members[k].storage()@[istr@.1 as int],
        represents(world.next(Step::Enter { istr }), after, members.update(k, member)),
{
    assert(before.owns(members[k]));
    let next = world.next(Step::Enter { istr });
    let updated = members.update(k, member);
    assert forall|l: int| 0 <= l < updated.len() implies after.owns(#[trigger] updated[l])
        && next.arenas[updated[l].id() as int] == updated[l].storage()@ by {
        if l != k {
            assert(before.owns(members[l]));
            assert(members[l].id() != members[k].id());
        }
    }
    assert forall|a: int, b: int| 0 <= a < b < updated.len() implies (#[trigger] updated[a]).id()
        != (#[trigger] updated[b]).id() by {
        assert(members[a].id() != members[b].id());
    }
}

/// Interning a string is no step where the string is bound, and two steps where it is not: the
/// string is stored, and then entered.
pub proof fn law_intern_is_steps<RS>(
    world: World,
    before: ConcurrentInterner<RS>,
    after: ConcurrentInterner<RS>,
    members: Seq<ConcurrentInternerMember>,
    k: int,
    member: ConcurrentInternerMember,
    s: Seq<char>,
    result: IStr,
)
    requires
        represents(world, before, members),
        0 <= k < members.len(),
        members[k].storage()@.len() < MAX_LOCAL_IDS || before.bindings().contains_key(s),
        after.wf(),
        after.owns(member),
        after.pool() == before.pool(),
        match before.bindings().get(s) {
            Some(first) => {
                &&& result == first
                &&& after == before
                &&& member == members[k]
            },
            None => {
                &&& result@ == (members[k].id(), members[k].storage()@.len() as u32)
                &&& after.bindings() == before.bindings().insert(s, result)
                &&& stored(members[k].storage(), member.storage(), s)
            },
        },
        forall|other: ConcurrentInternerMember| #[trigger]
            before.owns(other) && other.id() != members[k].id() ==> after.owns(other),
    ensures
        before.bindings().contains_key(s) ==> represents(world, after, members.update(k, member)),
        !before.bindings().contains_key(s) ==> {
            let store = Step::Store { arena: members[k].id() as int, s };
            let enter = Step::Enter { istr: result };
            &&& world.allows(store)
            &&& world.next(store).allows(enter)
            &&& represents(world.next(store).next(enter), after, members.update(k, member))
        },
{
    if before.bindings().contains_key(s) {
        assert(members.update(k, member) =~= members);
    } else {
        assert(before.owns(members[k]));
        assert forall|t: Seq<char>, istr: IStr| #[trigger]
            before.bound().contains((t, istr)) && istr@.0 == member.id() implies holds(
            member.storage(),
            istr,
            t,
        ) by {
            assert(holds(members[k].storage(), istr, t));
        }
        law_allocate_is_a_step(world, before, members, k, member, s);
        let middle = world.next(Step::Store { arena: members[k].id() as int, s });
        let updated = members.update(k, member);
        assert(updated.update(k, member) =~= updated);
        law_publish_is_a_step(middle, before, after, updated, k, member, result);
    }
}

/// Members have a one-to-one correspondence to arenas: the arenas on the shelf and those of the
/// members are all the arenas there are, and none is in two places.
pub proof fn law_arenas_are_dealt_out<RS>(
    world: World,
    interner: ConcurrentInterner<RS>,
    members: Seq<ConcurrentInternerMember>,
    id: u8,
)
    requires
        represents(world, interner, members),
    ensures
        interner.shelf().len() + members.len() == interner.arena_count(),
        id < interner.arena_count() <==> has_id(interner.shelf(), id) || has_member(members, id),
        !(has_id(interner.shelf(), id) && has_member(members, id)),
        distinct_ids(interner.shelf()),
        forall|k: int, l: int|
            0 <= k < l < members.len() ==> (#[trigger] members[k]).id() != (
            #[trigger] members[l]).id(),
        forall|i: int, k: int|
            0 <= i < interner.shelf().len() && 0 <= k < members.len() ==> (
            #[trigger] interner.shelf()[i]).id() != (#[trigger] members[k]).id(),
        id < interner.arena_count() ==> (exists|i: int|
            0 <= i < interner.shelf().len() && (#[trigger] interner.shelf()[i]).id() == id) || (
        exists|k: int| 0 <= k < members.len() && (#[trigger] members[k]).id() == id),
{
    interner.law_shelf();
    let shelf = interner.shelf();
    let n = interner.arena_count() as int;
    let ids = Seq::new(
        n as nat,
        |i: int|
            if i < shelf.len() {
                shelf[i].id() as int
            } else {
                members[i - shelf.len()].id() as int
            },
    );
    assert forall|i: int| 0 <= i < n implies 0 <= #[trigger] ids[i] < n by {
        if i >= shelf.len() {
            assert(interner.owns(members[i - shelf.len()]));
        }
    }
    assert(ids.no_duplicates()) by {
        assert forall|i: int, j: int| 0 <= i < j < n implies ids[i] != ids[j] by {
            if i < shelf.len() && j >= shelf.len() {
                assert(interner.owns(members[j - shelf.len()]));
                assert(shelf[i].id() != members[j - shelf.len()].id());
            }
        }
    }
    ids.unique_seq_to_set();
    let all = vstd::set_lib::set_int_range(0, n);
    vstd::set_lib::lemma_int_range(0, n);
    assert(ids.to_set().subset_of(all));
    vstd::set_lib::lemma_subset_equality(ids.to_set(), all);
    if id < n {
        assert(ids.to_set().contains(id as int));
        let i = choose|i: int| 0 <= i < ids.len() && ids[i] == id;
        if i < shelf.len() {
            assert(shelf[i].id() == id);
        } else {
            assert(members[i - shelf.len()].id() == id);
        }
    }
    if has_member(members, id) {
        let k = choose|k: int| 0 <= k < members.len() && (#[trigger] members[k]).id() == id;
        assert(interner.owns(members[k]));
    }
}

} // verus!
