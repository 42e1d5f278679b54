//! Interning a text word by word, and what a measurement of that is called.

use crate::bindings::is_bound;
use crate::index::{IStr, MAX_LOCAL_IDS};
use crate::interner::{ConcurrentInterner, ConcurrentInternerMember};
use crate::serial::{Interner, MAX_NUMBERS};
use crate::sso::MAX_LEN;
use crate::text::utf8;
use std::hash::BuildHasher;
use vstd::prelude::*;
use vstd::std_specs::hash::builds_valid_hashers;

verus! {

//----------------------------------------------------------------------------
// Words

/// A character with the Unicode property White_Space.
pub open spec fn is_white_space(c: char) -> bool {
    let u = c as u32;
    ||| 0x9 <= u <= 0xd
    ||| u == 0x20
    ||| u == 0x85
    ||| u == 0xa0
    ||| u == 0x1680
    ||| 0x2000 <= u <= 0x200a
    ||| u == 0x2028
    ||| u == 0x2029
    ||| u == 0x202f
    ||| u == 0x205f
    ||| u == 0x3000
}

/// The words of a text: the longest runs of characters without white space, in order.
pub open spec fn words_of(text: Seq<char>) -> Seq<Seq<char>>
    decreases text.len(),
{
    if text.len() == 0 {
        Seq::empty()
    } else {
        let words = words_of(text.drop_last());
        if is_white_space(text.last()) {
            words
        } else if text.len() == 1 || is_white_space(text[text.len() - 2]) {
            words.push(seq![text.last()])
        } else {
            words.update(words.len() - 1, words.last().push(text.last()))
        }
    }
}

/// `str::split_whitespace`: the words of the text, with white space as Unicode has it.
#[verifier::external_body]
fn split_whitespace(text: &str) -> (words: Vec<&str>)
    ensures
        texts(words@) == words_of(text@),
{
    text.split_whitespace().collect()
}

proof fn lemma_utf8_push(s: Seq<char>, c: char)
    ensures
        utf8(s.push(c)).len() == utf8(s).len() + vstd::utf8::encode_scalar(c as u32).len(),
    decreases s.len(),
{
    reveal_with_fuel(vstd::utf8::encode_utf8, 2);
    if s.len() == 0 {
        assert(s.push(c).drop_first() =~= Seq::empty());
    } else {
        assert(s.push(c).drop_first() =~= s.drop_first().push(c));
        lemma_utf8_push(s.drop_first(), c);
    }
}

/// No word is empty, none has white space in it, and none has more bytes than the text. A text that
/// ends in anything but white space has a word.
pub proof fn law_words(text: Seq<char>)
    ensures
        text.len() > 0 && !is_white_space(text.last()) ==> words_of(text).len() > 0,
        forall|i: int|
            0 <= i < words_of(text).len() ==> {
                &&& (#[trigger] words_of(text)[i]).len() > 0
                &&& forall|k: int|
                    0 <= k < words_of(text)[i].len() ==> !is_white_space(
                        #[trigger] words_of(text)[i][k],
                    )
                &&& utf8(words_of(text)[i]).len() <= utf8(text).len()
            },
    decreases text.len(),
{
    if text.len() > 0 {
        let rest = text.drop_last();
        law_words(rest);
        lemma_utf8_push(rest, text.last());
        assert(rest.push(text.last()) =~= text);
        if !is_white_space(text.last()) {
            if text.len() == 1 || is_white_space(text[text.len() - 2]) {
                lemma_utf8_push(Seq::empty(), text.last());
                assert(Seq::<char>::empty().push(text.last()) =~= seq![text.last()]);
                assert(utf8(Seq::empty()).len() == 0);
            } else {
                assert(rest.last() == text[text.len() - 2]);
                lemma_utf8_push(words_of(rest).last(), text.last());
            }
        }
    }
}

/// The characters with the Unicode property White_Space, one by one.
pub proof fn law_white_space(c: char)
    ensures
        is_white_space(c) <==> seq![
            '\t',
            '\n',
            '\u{b}',
            '\u{c}',
            '\r',
            ' ',
            '\u{85}',
            '\u{a0}',
            '\u{1680}',
            '\u{2000}',
            '\u{2001}',
            '\u{2002}',
            '\u{2003}',
            '\u{2004}',
            '\u{2005}',
            '\u{2006}',
            '\u{2007}',
            '\u{2008}',
            '\u{2009}',
            '\u{200a}',
            '\u{2028}',
            '\u{2029}',
            '\u{202f}',
            '\u{205f}',
            '\u{3000}',
        ].contains(c),
{
    let all = seq![
        '\t',
        '\n',
        '\u{b}',
        '\u{c}',
        '\r',
        ' ',
        '\u{85}',
        '\u{a0}',
        '\u{1680}',
        '\u{2000}',
        '\u{2001}',
        '\u{2002}',
        '\u{2003}',
        '\u{2004}',
        '\u{2005}',
        '\u{2006}',
        '\u{2007}',
        '\u{2008}',
        '\u{2009}',
        '\u{200a}',
        '\u{2028}',
        '\u{2029}',
        '\u{202f}',
        '\u{205f}',
        '\u{3000}',
    ];
    if is_white_space(c) {
        let u = c as u32;
        let i: int = if u <= 0xd {
            u - 9
        } else if u == 0x20 {
            5
        } else if u == 0x85 {
            6
        } else if u == 0xa0 {
            7
        } else if u == 0x1680 {
            8
        } else if u <= 0x200a {
            u - 0x2000 + 9
        } else if u == 0x2028 {
            20
        } else if u == 0x2029 {
            21
        } else if u == 0x202f {
            22
        } else if u == 0x205f {
            23
        } else {
            24
        };
        assert(all[i] == c);
    }
}

/// The words of a text are pieces of it that do not overlap and stand in order. Each has white space
/// or an end of the text on both sides and none inside, and every character that is not white space
/// is in one of them. The result tells where the words start.
pub proof fn law_words_are_the_text(text: Seq<char>) -> (starts: Seq<int>)
    ensures
        starts.len() == words_of(text).len(),
        forall|i: int|
            0 <= i < starts.len() ==> {
                let start = #[trigger] starts[i];
                let end = start + words_of(text)[i].len();
                &&& 0 <= start < end <= text.len()
                &&& words_of(text)[i] == text.subrange(start, end)
                &&& start == 0 || is_white_space(text[start - 1])
                &&& end == text.len() || is_white_space(text[end])
                &&& forall|k: int| start <= k < end ==> !is_white_space(#[trigger] text[k])
            },
        forall|i: int, j: int|
            0 <= i < j < starts.len() ==> #[trigger] starts[i] + words_of(text)[i].len()
                < #[trigger] starts[j],
        forall|k: int|
            0 <= k < text.len() && !is_white_space(#[trigger] text[k]) ==> exists|i: int|
                0 <= i < starts.len() && #[trigger] starts[i] <= k < starts[i]
                    + words_of(text)[i].len(),
    decreases text.len(),
{
    if text.len() == 0 {
        Seq::empty()
    } else {
        let n = text.len() as int;
        let rest = text.drop_last();
        let words = words_of(rest);
        let before = law_words_are_the_text(rest);
        assert forall|k: int| 0 <= k < n - 1 implies #[trigger] text[k] == rest[k] by {}
        assert forall|i: int| 0 <= i < before.len() implies words[i] == text.subrange(
            #[trigger] before[i],
            before[i] + words[i].len(),
        ) by {
            assert(rest.subrange(before[i], before[i] + words[i].len()) =~= text.subrange(
                before[i],
                before[i] + words[i].len(),
            ));
        }
        if is_white_space(text.last()) {
            before
        } else if n == 1 || is_white_space(text[n - 2]) {
            let starts = before.push(n - 1);
            assert(words_of(text) =~= words.push(seq![text.last()]));
            assert forall|i: int| 0 <= i < before.len() implies #[trigger] before[i]
                + words[i].len() < n - 1 by {
                if before[i] + words[i].len() == n - 1 {
                    assert(!is_white_space(rest[n - 2]));
                }
            }
            assert(text.subrange(n - 1, n) =~= seq![text.last()]);
            assert forall|k: int| 0 <= k < n && !is_white_space(#[trigger] text[k]) implies exists|
                i: int,
            |
                0 <= i < starts.len() && #[trigger] starts[i] <= k < starts[i] + words_of(
                    text,
                )[i].len() by {
                if k < n - 1 {
                    assert(!is_white_space(rest[k]));
                    let i = choose|i: int|
                        0 <= i < before.len() && #[trigger] before[i] <= k < before[i]
                            + words[i].len();
                    assert(starts[i] == before[i]);
                } else {
                    assert(starts[before.len() as int] == n - 1);
                }
            }
            starts
        } else {
            assert(!is_white_space(rest[n - 2]));
            let i = choose|i: int|
                0 <= i < before.len() && #[trigger] before[i] <= n - 2 < before[i] + words[i].len();
            let last = before.len() - 1;
            if i < last {
                assert(before[i] + words[i].len() < before[last]);
            }
            assert(words_of(text)[last] =~= text.subrange(before[last], n));
            assert forall|k: int| 0 <= k < n && !is_white_space(#[trigger] text[k]) implies exists|
                i: int,
            |
                0 <= i < before.len() && #[trigger] before[i] <= k < before[i] + words_of(
                    text,
                )[i].len() by {
                if k < n - 1 {
                    assert(!is_white_space(rest[k]));
                    let j = choose|j: int|
                        0 <= j < before.len() && #[trigger] before[j] <= k < before[j]
                            + words[j].len();
                    assert(before[j] <= k);
                } else {
                    assert(before[last] <= k);
                }
            }
            before
        }
    }
}

//----------------------------------------------------------------------------
// Interning words

/// Strings as sequences of characters.
pub open spec fn texts(words: Seq<&str>) -> Seq<Seq<char>> {
    Seq::new(words.len(), |i: int| words[i]@)
}

/// The text of a string has all its characters, and the strings keep their places.
pub proof fn law_texts(words: Seq<&str>, strings: Seq<String>)
    ensures
        texts(words).len() == words.len(),
        forall|i: int| 0 <= i < words.len() ==> #[trigger] texts(words)[i] == words[i]@,
        owned_texts(strings).len() == strings.len(),
        forall|i: int| 0 <= i < strings.len() ==> #[trigger] owned_texts(strings)[i] == strings[i]@,
{
}

/// The words that are not yet known, each once and in the order in which they come first.
pub open spec fn new_words(known: Set<Seq<char>>, words: Seq<Seq<char>>) -> Seq<Seq<char>>
    decreases words.len(),
{
    if words.len() == 0 {
        Seq::empty()
    } else {
        let earlier = new_words(known, words.drop_last());
        if known.contains(words.last()) || earlier.contains(words.last()) {
            earlier
        } else {
            earlier.push(words.last())
        }
    }
}

/// Among the words that are new none is twice, they are just the words that were not known, and they
/// stand in the order in which they come first: wherever a later one of them comes, an earlier one
/// has come before.
pub proof fn law_new_words(known: Set<Seq<char>>, words: Seq<Seq<char>>)
    ensures
        forall|i: int, j: int|
            0 <= i < j < new_words(known, words).len() ==> #[trigger] new_words(known, words)[i]
                != #[trigger] new_words(known, words)[j],
        forall|s: Seq<char>| #[trigger]
            new_words(known, words).contains(s) <==> words.contains(s) && !known.contains(s),
        forall|i: int, j: int, q: int|
            0 <= i < j < new_words(known, words).len() && 0 <= q < words.len()
                && #[trigger] words[q] == #[trigger] new_words(known, words)[j] ==> words.take(
                q,
            ).contains(#[trigger] new_words(known, words)[i]),
    decreases words.len(),
{
    let fresh = new_words(known, words);
    if words.len() > 0 {
        let n = words.len() - 1;
        let rest = words.drop_last();
        let earlier = new_words(known, rest);
        let word = words.last();
        law_new_words(known, rest);
        assert forall|s: Seq<char>| words.contains(s) <==> rest.contains(s) || s == word by {
            if rest.contains(s) {
                let p = choose|p: int| 0 <= p < rest.len() && rest[p] == s;
                assert(words[p] == s);
            }
            assert(words[n] == word);
            if words.contains(s) && s != word {
                let p = choose|p: int| 0 <= p < words.len() && words[p] == s;
                assert(rest[p] == s);
            }
        }
        let added = !known.contains(word) && !earlier.contains(word);
        assert(fresh == if added {
            earlier.push(word)
        } else {
            earlier
        });
        assert forall|s: Seq<char>| #[trigger] fresh.contains(s) <==> words.contains(s)
            && !known.contains(s) by {
            if added {
                if earlier.contains(s) {
                    let i = choose|i: int| 0 <= i < earlier.len() && earlier[i] == s;
                    assert(fresh[i] == s);
                }
                assert(fresh[earlier.len() as int] == word);
                if fresh.contains(s) && s != word {
                    let i = choose|i: int| 0 <= i < fresh.len() && fresh[i] == s;
                    assert(earlier[i] == s);
                }
            }
            assert(earlier.contains(s) <==> rest.contains(s) && !known.contains(s));
        }
        assert forall|i: int, j: int, q: int|
            0 <= i < j < fresh.len() && 0 <= q < words.len() && #[trigger] words[q]
                == #[trigger] fresh[j] implies words.take(q).contains(#[trigger] fresh[i]) by {
            assert(earlier[i] == fresh[i]);
            assert(earlier.contains(fresh[i]));
            assert(rest.contains(fresh[i]));
            if j == earlier.len() {
                if q < n {
                    assert(rest[q] == word);
                    assert(rest.contains(word));
                    assert(earlier.contains(word));
                }
                assert(words.take(q) =~= rest);
            } else {
                assert(earlier[j] == fresh[j]);
                assert(earlier.contains(fresh[j]));
                assert(rest.contains(fresh[j]));
                let at = if q < n {
                    q
                } else {
                    choose|at: int| 0 <= at < rest.len() && rest[at] == fresh[j]
                };
                assert(rest[at] == earlier[j]);
                assert(rest.take(at).contains(earlier[i]));
                let p = choose|p: int| 0 <= p < at && rest.take(at)[p] == earlier[i];
                assert(words.take(q)[p] == fresh[i]);
            }
        }
        assert forall|i: int, j: int| 0 <= i < j < fresh.len() implies #[trigger] fresh[i]
            != #[trigger] fresh[j] by {
            assert(earlier[i] == fresh[i]);
            assert(earlier.contains(fresh[i]));
        }
    }
}

/// What interning words one after the other does to a list of strings: `before` stays, and behind it
/// come the words that were not in it, none twice, in the order in which they come first among the
/// words.
pub proof fn law_words_are_appended(
    before: Seq<Seq<char>>,
    after: Seq<Seq<char>>,
    known: Set<Seq<char>>,
    words: Seq<Seq<char>>,
)
    requires
        after == before + new_words(known, words),
    ensures
        before.len() <= after.len(),
        forall|i: int| 0 <= i < before.len() ==> #[trigger] after[i] == before[i],
        forall|i: int, j: int|
            before.len() <= i < j < after.len() ==> #[trigger] after[i] != #[trigger] after[j],
        forall|s: Seq<char>| #[trigger]
            after.skip(before.len() as int).contains(s) <==> words.contains(s) && !known.contains(s),
        forall|i: int, j: int, q: int|
            before.len() <= i < j < after.len() && 0 <= q < words.len() && #[trigger] words[q]
                == #[trigger] after[j] ==> words.take(q).contains(#[trigger] after[i]),
{
    law_new_words(known, words);
    let fresh = new_words(known, words);
    let n = before.len() as int;
    assert(after.skip(n) =~= fresh);
    assert forall|i: int, j: int, q: int|
        n <= i < j < after.len() && 0 <= q < words.len() && #[trigger] words[q]
            == #[trigger] after[j] implies words.take(q).contains(#[trigger] after[i]) by {
        assert(words[q] == fresh[j - n]);
        assert(fresh[i - n] == after[i]);
    }
}

/// The member has interned `words`: those that were not bound are now, to the next ids of the
/// member's arena in the order in which they came first, and nothing else changed.
pub open spec fn interned_words(
    bindings: Map<Seq<char>, IStr>,
    member: ConcurrentInternerMember,
    after: Map<Seq<char>, IStr>,
    member_after: ConcurrentInternerMember,
    words: Seq<Seq<char>>,
) -> bool {
    let fresh = new_words(bindings.dom(), words);
    &&& member_after.id() == member.id()
    &&& member_after.storage()@ == member.storage()@ + fresh
    &&& member_after.storage().wasted() == member.storage().wasted()
    &&& after.dom() == bindings.dom().union(fresh.to_set())
    &&& forall|s: Seq<char>| #[trigger] bindings.contains_key(s) ==> after[s] == bindings[s]
    &&& forall|i: int|
        0 <= i < fresh.len() ==> after[#[trigger] fresh[i]]@ == (
            member.id(),
            (member.storage()@.len() + i) as u32,
        )
}

/// What it means that a member has interned `words`: its arena keeps what it held, and behind that
/// come the words that were not bound, none twice, in the order in which they come first among the
/// words. A string is bound if it was or is one of the words; what was bound stays as it was, and a
/// new word is bound to the place where the member's arena has it.
pub proof fn law_interned_words(
    bindings: Map<Seq<char>, IStr>,
    member: ConcurrentInternerMember,
    after: Map<Seq<char>, IStr>,
    member_after: ConcurrentInternerMember,
    words: Seq<Seq<char>>,
)
    requires
        interned_words(bindings, member, after, member_after, words),
        member_after.storage()@.len() <= MAX_LOCAL_IDS,
    ensures
        member_after.id() == member.id(),
        member_after.storage().wasted() == member.storage().wasted(),
        ({
            let held = member.storage()@;
            let holds = member_after.storage()@;
            &&& held.len() <= holds.len()
            &&& forall|i: int| 0 <= i < held.len() ==> #[trigger] holds[i] == held[i]
            &&& forall|i: int, j: int|
                held.len() <= i < j < holds.len() ==> #[trigger] holds[i] != #[trigger] holds[j]
            &&& forall|i: int|
                held.len() <= i < holds.len() ==> after[#[trigger] holds[i]]@.0 == member.id()
                    && after[holds[i]]@.1 == i
            &&& forall|s: Seq<char>| #[trigger]
                holds.skip(held.len() as int).contains(s) <==> words.contains(s)
                    && !bindings.contains_key(s)
            &&& forall|i: int, j: int, q: int|
                held.len() <= i < j < holds.len() && 0 <= q < words.len() && #[trigger] words[q]
                    == #[trigger] holds[j] ==> words.take(q).contains(#[trigger] holds[i])
        }),
        forall|s: Seq<char>| #[trigger]
            after.contains_key(s) <==> bindings.contains_key(s) || words.contains(s),
        forall|s: Seq<char>| #[trigger] bindings.contains_key(s) ==> after[s] == bindings[s],
{
    let known = bindings.dom();
    let fresh = new_words(known, words);
    let n = member.storage()@.len() as int;
    law_words_are_appended(member.storage()@, member_after.storage()@, known, words);
    law_new_words(known, words);
    assert forall|i: int| n <= i < member_after.storage()@.len() implies after[
    #[trigger] member_after.storage()@[i]]@.0 == member.id()
        && after[member_after.storage()@[i]]@.1 == i by {
        assert(member_after.storage()@[i] == fresh[i - n]);
    }
    assert forall|s: Seq<char>| #[trigger] after.contains_key(s) <==> bindings.contains_key(s)
        || words.contains(s) by {
        assert(after.dom().contains(s) <==> known.contains(s) || fresh.to_set().contains(s));
        assert(fresh.contains(s) <==> words.contains(s) && !known.contains(s));
    }
}

/// Interns one word after the other, and tells how many were interned: all of them, unless the
/// arena is full and a new word comes.
pub fn intern_words<RS: Send + Sync + Clone + BuildHasher>(
    member: &mut ConcurrentInternerMember,
    owner: &mut ConcurrentInterner<RS>,
    words: &Vec<&str>,
) -> (count: usize)
    requires
        old(owner).wf(),
        old(owner).owns(*old(member)),
        forall|i: int|
            0 <= i < words@.len() ==> utf8((#[trigger] words@[i])@).len() <= MAX_LEN,
    ensures
        final(owner).wf(),
        final(owner).owns(*final(member)),
        final(owner).pool() == old(owner).pool(),
        final(member).id() == old(member).id(),
        count <= words@.len(),
        old(owner).bound().subset_of(final(owner).bound()),
        forall|i: int|
            0 <= i < count ==> is_bound(final(owner).bound(), (#[trigger] words@[i])@),
        count < words@.len() ==> final(member).storage()@.len() == MAX_LOCAL_IDS,
        builds_valid_hashers::<RS>() ==> {
            &&& interned_words(
                old(owner).bindings(),
                *old(member),
                final(owner).bindings(),
                *final(member),
                texts(words@).take(count as int),
            )
            &&& count < words@.len() ==> !final(owner).bindings().contains_key(
                words@[count as int]@,
            )
        },
        forall|other: ConcurrentInternerMember| #[trigger]
            old(owner).owns(other) && other.id() != old(member).id() ==> final(owner).owns(other),
{
    let ghost bindings = owner.bindings();
    let ghost first = *member;
    let n: usize = words.len();
    let mut i: usize = 0;
    proof {
        assert(texts(words@).take(0) =~= Seq::empty());
        assert(member.storage()@ =~= first.storage()@ + Seq::<Seq<char>>::empty());
        assert(bindings.dom() =~= bindings.dom().union(Seq::<Seq<char>>::empty().to_set()));
    }
    while i < n
        invariant
            n == words@.len(),
            i <= n,
            owner.wf(),
            owner.owns(*member),
            owner.pool() == old(owner).pool(),
            member.id() == first.id(),
            bindings == old(owner).bindings(),
            first == *old(member),
            old(owner).bound().subset_of(owner.bound()),
            forall|j: int| 0 <= j < i ==> is_bound(owner.bound(), (#[trigger] words@[j])@),
            forall|other: ConcurrentInternerMember| #[trigger]
                old(owner).owns(other) && other.id() != first.id() ==> owner.owns(other),
            forall|j: int|
                0 <= j < words@.len() ==> utf8((#[trigger] words@[j])@).len() <= MAX_LEN,
            builds_valid_hashers::<RS>() ==> interned_words(
                bindings,
                first,
                owner.bindings(),
                *member,
                texts(words@).take(i as int),
            ),
        decreases n - i,
    {
        let word = words[i];
        let ghost done = texts(words@).take(i as int);
        let ghost member_before = *member;
        let ghost bound_before = owner.bound();
        let ghost before = owner.bindings();
        proof {
            member.storage().law_capacity();
        }
        if member.len() < MAX_LOCAL_IDS {
            let istr = member.intern(owner, word);
            proof {
                assert(owner.bound().contains((word@, istr)));
                lemma_still_bound(bound_before, owner.bound(), words@, i as int);
            }
        } else if owner.lookup(word).is_none() {
            return i;
        }
        proof {
            assert(texts(words@).take(i + 1) =~= done.push(word@));
            if builds_valid_hashers::<RS>() {
                lemma_one_more_word(
                    bindings,
                    first,
                    before,
                    member_before,
                    owner.bindings(),
                    *member,
                    done,
                    word@,
                );
            }
        }
        i += 1;
    }
    assert(texts(words@).take(n as int) =~= texts(words@));
    n
}

/// Strings that are bound stay bound when more are.
proof fn lemma_still_bound(
    before: Set<(Seq<char>, IStr)>,
    after: Set<(Seq<char>, IStr)>,
    words: Seq<&str>,
    n: int,
)
    requires
        before.subset_of(after),
        0 <= n <= words.len(),
        forall|j: int| 0 <= j < n ==> is_bound(before, (#[trigger] words[j])@),
    ensures
        forall|j: int| 0 <= j < n ==> is_bound(after, (#[trigger] words[j])@),
{
    assert forall|j: int| 0 <= j < n implies is_bound(after, (#[trigger] words[j])@) by {
        let istr = choose|istr: IStr| before.contains((words[j]@, istr));
        assert(after.contains((words[j]@, istr)));
    }
}

/// A member that has interned `done` and then interns `word` has interned `done` and `word`.
proof fn lemma_one_more_word(
    bindings: Map<Seq<char>, IStr>,
    first: ConcurrentInternerMember,
    before: Map<Seq<char>, IStr>,
    member_before: ConcurrentInternerMember,
    after: Map<Seq<char>, IStr>,
    member: ConcurrentInternerMember,
    done: Seq<Seq<char>>,
    word: Seq<char>,
)
    requires
        interned_words(bindings, first, before, member_before, done),
        match before.get(word) {
            Some(_) => after == before && member == member_before,
            None => {
                &&& after == before.insert(word, after[word])
                &&& after[word]@ == (member_before.id(), member_before.storage()@.len() as u32)
                &&& member.id() == member_before.id()
                &&& member.storage()@ == member_before.storage()@.push(word)
                &&& member.storage().wasted() == member_before.storage().wasted()
            },
        },
    ensures
        interned_words(bindings, first, after, member, done.push(word)),
{
    let fresh = new_words(bindings.dom(), done);
    assert(done.push(word).drop_last() =~= done);
    assert(before.contains_key(word) <==> bindings.contains_key(word) || fresh.contains(word));
    if !before.contains_key(word) {
        let more = fresh.push(word);
        assert(more.to_set() =~= fresh.to_set().insert(word)) by {
            assert forall|s: Seq<char>| more.contains(s) == (fresh.contains(s) || s == word) by {
                if fresh.contains(s) {
                    let j = choose|j: int| 0 <= j < fresh.len() && fresh[j] == s;
                    assert(more[j] == s);
                }
                assert(more[fresh.len() as int] == word);
            }
        }
        assert(after.dom() =~= bindings.dom().union(more.to_set()));
        assert(member.storage()@ =~= first.storage()@ + more);
        assert forall|j: int| 0 <= j < more.len() implies after[#[trigger] more[j]]@ == (
            first.id(),
            (first.storage()@.len() + j) as u32,
        ) by {
            if j < fresh.len() {
                assert(more[j] == fresh[j]);
                assert(fresh.contains(fresh[j]));
            }
        }
    }
}

/// Interns the words of a text. The result tells whether all of them found room.
pub fn intern_text<RS: Send + Sync + Clone + BuildHasher>(
    member: &mut ConcurrentInternerMember,
    owner: &mut ConcurrentInterner<RS>,
    text: &str,
) -> (complete: bool)
    requires
        old(owner).wf(),
        old(owner).owns(*old(member)),
        forall|i: int|
            0 <= i < words_of(text@).len() ==> utf8(#[trigger] words_of(text@)[i]).len() <= MAX_LEN,
    ensures
        final(owner).wf(),
        final(owner).owns(*final(member)),
        final(owner).pool() == old(owner).pool(),
        final(member).id() == old(member).id(),
        old(owner).bound().subset_of(final(owner).bound()),
        complete ==> forall|i: int|
            0 <= i < words_of(text@).len() ==> is_bound(
                final(owner).bound(),
                #[trigger] words_of(text@)[i],
            ),
        !complete ==> final(member).storage()@.len() == MAX_LOCAL_IDS,
        builds_valid_hashers::<RS>() ==> {
            let words = words_of(text@);
            let fresh = new_words(old(owner).bindings().dom(), words);
            &&& complete == (old(member).storage()@.len() + fresh.len() <= MAX_LOCAL_IDS)
            &&& complete ==> interned_words(
                old(owner).bindings(),
                *old(member),
                final(owner).bindings(),
                *final(member),
                words,
            )
            &&& !complete ==> exists|n: int|
                {
                    &&& 0 <= n < words.len()
                    &&& !final(owner).bindings().contains_key(words[n])
                    &&& interned_words(
                        old(owner).bindings(),
                        *old(member),
                        final(owner).bindings(),
                        *final(member),
                        #[trigger] words.take(n),
                    )
                }
        },
        forall|other: ConcurrentInternerMember| #[trigger]
            old(owner).owns(other) && other.id() != old(member).id() ==> final(owner).owns(other),
{
    let words = split_whitespace(text);
    let ghost all = words_of(text@);
    assert(forall|i: int| 0 <= i < words@.len() ==> (#[trigger] words@[i])@ == all[i]);
    let count: usize = intern_words(member, owner, &words);
    proof {
        assert forall|i: int| 0 <= i < count implies is_bound(
            owner.bound(),
            #[trigger] all[i],
        ) by {
            assert(is_bound(owner.bound(), words@[i]@));
        }
        if builds_valid_hashers::<RS>() {
            let known = old(owner).bindings().dom();
            assert(all.take(all.len() as int) =~= all);
            member.storage().law_capacity();
            if count < words@.len() {
                assert(words@[count as int]@ == all[count as int]);
                lemma_new_words_grow(known, all, count as int);
            }
        }
    }
    count == words.len()
}

//----------------------------------------------------------------------------
// Interning words for one thread

/// Interns one word after the other, and tells how many were interned: all of them, unless the
/// numbers have run out and a new word comes.
pub fn intern_words_serial<'a, RS: Default + BuildHasher>(
    interner: &mut Interner<'a, RS>,
    words: &Vec<&str>,
) -> (count: usize)
    requires
        old(interner).wf(),
        builds_valid_hashers::<RS>(),
        forall|i: int|
            0 <= i < words@.len() ==> utf8((#[trigger] words@[i])@).len() <= usize::MAX / 4,
    ensures
        final(interner).wf(),
        count <= words@.len(),
        final(interner)@ == old(interner)@ + new_words(
            old(interner)@.to_set(),
            texts(words@).take(count as int),
        ),
        count < words@.len() ==> {
            &&& final(interner)@.len() == MAX_NUMBERS
            &&& !final(interner)@.contains(words@[count as int]@)
        },
        forall|i: int|
            0 <= i < old(interner)@.len() ==> #[trigger] final(interner)@[i] == old(interner)@[i],
        forall|i: int, j: int|
            old(interner)@.len() <= i < j < final(interner)@.len()
                ==> #[trigger] final(interner)@[i] != #[trigger] final(interner)@[j],
        forall|s: Seq<char>| #[trigger]
            final(interner)@.skip(old(interner)@.len() as int).contains(s) <==> texts(words@).take(
                count as int,
            ).contains(s) && !old(interner)@.contains(s),
        forall|i: int, j: int, q: int|
            old(interner)@.len() <= i < j < final(interner)@.len() && 0 <= q < count && (
            #[trigger] words@[q])@ == #[trigger] final(interner)@[j] ==> texts(words@).take(
                q,
            ).contains(#[trigger] final(interner)@[i]),
{
    let ghost names = interner@;
    let n: usize = words.len();
    let mut i: usize = 0;
    proof {
        assert(texts(words@).take(0) =~= Seq::empty());
        assert(interner@ =~= names + Seq::<Seq<char>>::empty());
    }
    while i < n
        invariant
            n == words@.len(),
            i <= n,
            names == old(interner)@,
            interner.wf(),
            builds_valid_hashers::<RS>(),
            forall|j: int|
                0 <= j < words@.len() ==> utf8((#[trigger] words@[j])@).len() <= usize::MAX / 4,
            interner@ == names + new_words(names.to_set(), texts(words@).take(i as int)),
        decreases n - i,
    {
        let word = words[i];
        let ghost done = texts(words@).take(i as int);
        let ghost fresh = new_words(names.to_set(), done);
        proof {
            assert(texts(words@).take(i + 1) =~= done.push(word@));
            assert(done.push(word@).drop_last() =~= done);
            assert((names + fresh).contains(word@) <==> names.to_set().contains(word@)
                || fresh.contains(word@)) by {
                if fresh.contains(word@) {
                    let j = choose|j: int| 0 <= j < fresh.len() && fresh[j] == word@;
                    assert((names + fresh)[names.len() + j] == word@);
                }
                if names.contains(word@) {
                    let j = choose|j: int| 0 <= j < names.len() && names[j] == word@;
                    assert((names + fresh)[j] == word@);
                }
            }
            assert(names + fresh.push(word@) =~= (names + fresh).push(word@));
        }
        if (interner.len() as u64) < MAX_NUMBERS {
            interner.intern(word);
        } else if interner.number_of(word).is_none() {
            proof {
                interner.law_capacity();
                lemma_numbered(names, interner@, words@, i as int);
            }
            return i;
        }
        i += 1;
    }
    assert(texts(words@).take(n as int) =~= texts(words@));
    proof {
        lemma_numbered(names, interner@, words@, n as int);
    }
    n
}

/// The strings of an interner that has interned the first `count` words.
proof fn lemma_numbered(
    before: Seq<Seq<char>>,
    after: Seq<Seq<char>>,
    words: Seq<&str>,
    count: int,
)
    requires
        0 <= count <= words.len(),
        after == before + new_words(before.to_set(), texts(words).take(count)),
    ensures
        forall|i: int, j: int|
            before.len() <= i < j < after.len() ==> #[trigger] after[i] != #[trigger] after[j],
        forall|s: Seq<char>| #[trigger]
            after.skip(before.len() as int).contains(s) <==> texts(words).take(count).contains(s)
                && !before.contains(s),
        forall|i: int, j: int, q: int|
            before.len() <= i < j < after.len() && 0 <= q < count && (#[trigger] words[q])@
                == #[trigger] after[j] ==> texts(words).take(q).contains(#[trigger] after[i]),
{
    let done = texts(words).take(count);
    law_words_are_appended(before, after, before.to_set(), done);
    assert forall|s: Seq<char>| #[trigger] after.skip(before.len() as int).contains(s)
        <==> done.contains(s) && !before.contains(s) by {
        assert(before.to_set().contains(s) <==> before.contains(s));
    }
    assert forall|i: int, j: int, q: int|
        before.len() <= i < j < after.len() && 0 <= q < count && (#[trigger] words[q])@
            == #[trigger] after[j] implies texts(words).take(q).contains(#[trigger] after[i]) by {
        assert(done[q] == after[j]);
        assert(done.take(q) =~= texts(words).take(q));
    }
}

/// Interns the words of a text for one thread. The result tells whether there were numbers for all
/// of them.
pub fn intern_text_serial<'a, RS: Default + BuildHasher>(
    interner: &mut Interner<'a, RS>,
    text: &str,
) -> (complete: bool)
    requires
        old(interner).wf(),
        builds_valid_hashers::<RS>(),
        forall|i: int|
            0 <= i < words_of(text@).len() ==> utf8(#[trigger] words_of(text@)[i]).len()
                <= usize::MAX / 4,
    ensures
        final(interner).wf(),
        ({
            let words = words_of(text@);
            let fresh = new_words(old(interner)@.to_set(), words);
            &&& complete == (old(interner)@.len() + fresh.len() <= MAX_NUMBERS)
            &&& complete ==> final(interner)@ == old(interner)@ + fresh
            &&& !complete ==> final(interner)@.len() == MAX_NUMBERS && exists|n: int|
                {
                    &&& 0 <= n < words.len()
                    &&& !final(interner)@.contains(words[n])
                    &&& final(interner)@ == old(interner)@ + new_words(
                        old(interner)@.to_set(),
                        #[trigger] words.take(n),
                    )
                }
        }),
{
    let words = split_whitespace(text);
    let ghost all = words_of(text@);
    assert(forall|i: int| 0 <= i < words@.len() ==> (#[trigger] words@[i])@ == all[i]);
    let count: usize = intern_words_serial(interner, &words);
    proof {
        let names = old(interner)@;
        let done = new_words(names.to_set(), all.take(count as int));
        assert(all.take(all.len() as int) =~= all);
        interner.law_capacity();
        if count < words@.len() {
            let word = words@[count as int]@;
            assert(word == all[count as int]);
            assert(!names.to_set().contains(word) && !done.contains(word)) by {
                if names.contains(word) {
                    let j = choose|j: int| 0 <= j < names.len() && names[j] == word;
                    assert((names + done)[j] == word);
                }
                if done.contains(word) {
                    let j = choose|j: int| 0 <= j < done.len() && done[j] == word;
                    assert((names + done)[names.len() + j] == word);
                }
            }
            lemma_new_words_grow(names.to_set(), all, count as int);
        }
    }
    count == words.len()
}

proof fn lemma_new_words_grow(known: Set<Seq<char>>, words: Seq<Seq<char>>, n: int)
    requires
        0 <= n < words.len(),
        !known.contains(words[n]),
        !new_words(known, words.take(n)).contains(words[n]),
    ensures
        new_words(known, words).len() > new_words(known, words.take(n)).len(),
    decreases words.len(),
{
    if n == words.len() - 1 {
        assert(words.take(n) =~= words.drop_last());
    } else {
        assert(words.drop_last().take(n) =~= words.take(n));
        lemma_new_words_grow(known, words.drop_last(), n);
    }
}

//----------------------------------------------------------------------------
// Labels

/// The character of a decimal digit.
pub open spec fn digit(d: nat) -> char {
    if d == 0 {
        '0'
    } else if d == 1 {
        '1'
    } else if d == 2 {
        '2'
    } else if d == 3 {
        '3'
    } else if d == 4 {
        '4'
    } else if d == 5 {
        '5'
    } else if d == 6 {
        '6'
    } else if d == 7 {
        '7'
    } else if d == 8 {
        '8'
    } else {
        '9'
    }
}

/// A number in decimal.
pub open spec fn decimal(n: nat) -> Seq<char>
    decreases n,
{
    if n < 10 {
        seq![digit(n)]
    } else {
        decimal(n / 10).push(digit(n % 10))
    }
}

fn digit_text(d: u8) -> (text: &'static str)
    requires
        d < 10,
    ensures
        text@ == seq![digit(d as nat)],
{
    proof {
        reveal_strlit("0");
        reveal_strlit("1");
        reveal_strlit("2");
        reveal_strlit("3");
        reveal_strlit("4");
        reveal_strlit("5");
        reveal_strlit("6");
        reveal_strlit("7");
        reveal_strlit("8");
        reveal_strlit("9");
    }
    match d {
        0 => "0",
        1 => "1",
        2 => "2",
        3 => "3",
        4 => "4",
        5 => "5",
        6 => "6",
        7 => "7",
        8 => "8",
        _ => "9",
    }
}

fn append_decimal(text: &mut String, n: u8)
    ensures
        final(text)@ == old(text)@ + decimal(n as nat),
    decreases n,
{
    if n >= 10 {
        append_decimal(text, n / 10);
    }
    text.append(digit_text(n % 10));
    assert(text@ =~= old(text)@ + decimal(n as nat));
}

/// What a run of the benchmark is called: how many threads there are, what the page cache holds, and
/// which hash function is used.
pub open spec fn label_of(n: u8, cache_state: Seq<char>, hash_name: Seq<char>) -> Seq<char> {
    "intern "@ + (if n == 1 {
        "serial"@
    } else {
        "parallel"@
    }) + ": ("@ + cache_state + "/"@ + hash_name + ", n = "@ + decimal(n as nat) + ")"@
}

/// The labels of the runs with the given numbers of threads, in that order.
pub open spec fn labels_of(
    nthreads: Seq<u8>,
    cache_state: Seq<char>,
    hash_name: Seq<char>,
) -> Seq<Seq<char>> {
    Seq::new(nthreads.len(), |i: int| label_of(nthreads[i], cache_state, hash_name))
}

/// Owned strings as sequences of characters.
pub open spec fn owned_texts(strings: Seq<String>) -> Seq<Seq<char>> {
    Seq::new(strings.len(), |i: int| strings[i]@)
}

/// A number below a thousand in decimal: as many digits as it needs, the most significant one first.
pub proof fn law_decimal(n: nat)
    requires
        n < 1000,
    ensures
        decimal(n).len() == if n < 10 {
            1nat
        } else if n < 100 {
            2
        } else {
            3
        },
        forall|i: int|
            0 <= i < decimal(n).len() ==> '0' as u32 <= #[trigger] decimal(n)[i] as u32 <= '9' as u32,
        n < 10 ==> n == decimal(n)[0] as u32 - '0' as u32,
        10 <= n < 100 ==> n == 10 * (decimal(n)[0] as u32 - '0' as u32) + (decimal(n)[1] as u32
            - '0' as u32),
        100 <= n ==> n == 100 * (decimal(n)[0] as u32 - '0' as u32) + 10 * (decimal(n)[1] as u32
            - '0' as u32) + (decimal(n)[2] as u32 - '0' as u32),
{
    reveal_with_fuel(decimal, 3);
}

/// A label names the run in full: it starts with `intern serial: (` for one thread and with
/// `intern parallel: (` for any other number, and then has the state of the cache, a slash, the name
/// of the hash function, and the number of threads.
pub proof fn law_label(n: u8, cache_state: Seq<char>, hash_name: Seq<char>)
    ensures
        n == 1 ==> label_of(n, cache_state, hash_name) == "intern serial: ("@ + cache_state + "/"@
            + hash_name + ", n = 1)"@,
        n != 1 ==> label_of(n, cache_state, hash_name) == "intern parallel: ("@ + cache_state
            + "/"@ + hash_name + ", n = "@ + decimal(n as nat) + ")"@,
{
    reveal_strlit("intern ");
    reveal_strlit("serial");
    reveal_strlit("parallel");
    reveal_strlit(": (");
    reveal_strlit("intern serial: (");
    reveal_strlit("intern parallel: (");
    reveal_strlit(", n = ");
    reveal_strlit(", n = 1)");
    reveal_strlit(")");
    assert("intern "@ + "serial"@ + ": ("@ =~= "intern serial: ("@);
    assert("intern "@ + "parallel"@ + ": ("@ =~= "intern parallel: ("@);
    if n == 1 {
        reveal_with_fuel(decimal, 2);
        assert(", n = "@ + decimal(1) + ")"@ =~= ", n = 1)"@);
        assert(label_of(n, cache_state, hash_name) =~= "intern serial: ("@ + cache_state + "/"@
            + hash_name + (", n = "@ + decimal(1) + ")"@));
    }
}

/// Runs with different numbers of threads have different labels.
pub proof fn law_labels_differ(n: u8, m: u8, cache_state: Seq<char>, hash_name: Seq<char>)
    requires
        n != m,
    ensures
        label_of(n, cache_state, hash_name) != label_of(m, cache_state, hash_name),
{
    let a = label_of(n, cache_state, hash_name);
    let b = label_of(m, cache_state, hash_name);
    law_label(n, cache_state, hash_name);
    law_label(m, cache_state, hash_name);
    reveal_strlit("intern serial: (");
    reveal_strlit("intern parallel: (");
    reveal_strlit("/");
    reveal_strlit(", n = ");
    reveal_strlit(")");
    if n == 1 {
        assert(a[7] == 's');
        assert(b[7] == 'p');
    } else if m == 1 {
        assert(a[7] == 'p');
        assert(b[7] == 's');
    } else if a == b {
        law_decimal(n as nat);
        law_decimal(m as nat);
        let head = "intern parallel: ("@ + cache_state + "/"@ + hash_name + ", n = "@;
        assert(a =~= head + decimal(n as nat) + ")"@);
        assert(b =~= head + decimal(m as nat) + ")"@);
        assert(a.subrange(head.len() as int, a.len() - 1) =~= decimal(n as nat));
        assert(b.subrange(head.len() as int, b.len() - 1) =~= decimal(m as nat));
    }
}

/// The labels of several runs: one for each number of threads, the one at `k` with the number at
/// `k`.
pub proof fn law_labels(nthreads: Seq<u8>, cache_state: Seq<char>, hash_name: Seq<char>)
    ensures
        labels_of(nthreads, cache_state, hash_name).len() == nthreads.len(),
        forall|k: int|
            0 <= k < nthreads.len() ==> #[trigger] labels_of(nthreads, cache_state, hash_name)[k]
                == label_of(nthreads[k], cache_state, hash_name),
{
}

/// The label of a run of the benchmark.
pub fn benchmark_label(n: u8, cache_state: &str, hash_name: &str) -> (label: String)
    ensures
        label@ == label_of(n, cache_state@, hash_name@),
        n == 1 ==> label@ == "intern serial: ("@ + cache_state@ + "/"@ + hash_name@ + ", n = 1)"@,
        n != 1 ==> label@ == "intern parallel: ("@ + cache_state@ + "/"@ + hash_name@ + ", n = "@
            + decimal(n as nat) + ")"@,
{
    proof {
        law_label(n, cache_state@, hash_name@);
    }
    let mut label = "intern ".to_owned();
    label.append(
        if n == 1 {
            "serial"
        } else {
            "parallel"
        },
    );
    label.append(": (");
    label.append(cache_state);
    label.append("/");
    label.append(hash_name);
    label.append(", n = ");
    append_decimal(&mut label, n);
    label.append(")");
    label
}

/// Adds the labels of the runs with the given numbers of threads.
fn append_labels(
    labels: &mut Vec<String>,
    nthreads: &Vec<u8>,
    cache_state: &str,
    hash_name: &str,
)
    ensures
        owned_texts(final(labels)@) == owned_texts(old(labels)@) + labels_of(
            nthreads@,
            cache_state@,
            hash_name@,
        ),
{
    let ghost before = owned_texts(labels@);
    let n: usize = nthreads.len();
    assert(before =~= before + labels_of(nthreads@, cache_state@, hash_name@).take(0));
    for i in 0..n
        invariant
            n == nthreads@.len(),
            owned_texts(labels@) == before + labels_of(nthreads@, cache_state@, hash_name@).take(
                i as int,
            ),
    {
        let ghost earlier = labels@;
        let label = benchmark_label(nthreads[i], cache_state, hash_name);
        labels.push(label);
        proof {
            let all = labels_of(nthreads@, cache_state@, hash_name@);
            assert(owned_texts(labels@) =~= owned_texts(earlier).push(label@));
            assert(all.take(i + 1) =~= all.take(i as int).push(all[i as int]));
            assert(before + all.take(i + 1) =~= (before + all.take(i as int)).push(label@));
        }
    }
    proof {
        let all = labels_of(nthreads@, cache_state@, hash_name@);
        assert(all.take(n as int) =~= all);
    }
}

/// The runs of the benchmark with one hash function, in order: those with a cold page cache, if they
/// are asked for, and then those with a warm one.
pub fn benchmark_runs(nthreads: &Vec<u8>, cold: bool, hash_name: &str) -> (labels: Vec<String>)
    ensures
        owned_texts(labels@) == (if cold {
            labels_of(nthreads@, "cold"@, hash_name@)
        } else {
            Seq::empty()
        }) + labels_of(nthreads@, "warm"@, hash_name@),
        labels@.len() == if cold {
            2 * nthreads@.len()
        } else {
            nthreads@.len()
        },
        cold ==> forall|k: int|
            0 <= k < nthreads@.len() ==> {
                &&& (#[trigger] labels@[k])@ == label_of(nthreads@[k], "cold"@, hash_name@)
                &&& labels@[nthreads@.len() + k]@ == label_of(nthreads@[k], "warm"@, hash_name@)
            },
        !cold ==> forall|k: int|
            0 <= k < nthreads@.len() ==> (#[trigger] labels@[k])@ == label_of(
                nthreads@[k],
                "warm"@,
                hash_name@,
            ),
{
    let mut labels: Vec<String> = Vec::new();
    assert(owned_texts(labels@) =~= Seq::empty());
    if cold {
        append_labels(&mut labels, nthreads, "cold", hash_name);
        assert(owned_texts(labels@) =~= labels_of(nthreads@, "cold"@, hash_name@));
    }
    append_labels(&mut labels, nthreads, "warm", hash_name);
    proof {
        let all = owned_texts(labels@);
        assert(all.len() == labels@.len());
        assert(forall|k: int| 0 <= k < labels@.len() ==> (#[trigger] labels@[k])@ == all[k]);
    }
    labels
}

} // verus!
