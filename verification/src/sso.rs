//! A reference to a byte string that carries short strings inline.

use crate::text::{law_utf8_injective, utf8};
use vstd::prelude::*;

verus! {

/// The number of bytes that a reference holds inline: two machine words.
pub const SIZE_IN_BYTES: usize = usize::BITS as usize / 4;

/// The longest byte string that can be referred to: its length, shifted past the first byte of a
/// word, has to fit that word.
pub const MAX_LEN: usize = usize::MAX / 256;

/// The limits: a reference has the size of two machine words, and a length leaves one byte of a word
/// free.
pub proof fn law_limits()
    ensures
        8 * SIZE_IN_BYTES == 2 * usize::BITS,
        256 * (MAX_LEN + 1) == usize::MAX + 1,
{
}

//----------------------------------------------------------------------------
// ByteSlice

/// A slice that keeps its length shifted by one byte, so that the first byte of the
/// (little-endian) length word is always zero.
#[derive(Copy, Clone)]
pub struct ByteSlice<'a> {
    len: usize,
    slice: &'a [u8],
}

impl<'a> View for ByteSlice<'a> {
    type V = Seq<u8>;

    closed spec fn view(&self) -> Seq<u8> {
        self.slice@
    }
}

impl<'a> ByteSlice<'a> {
    /// The length word is 256 times the length.
    #[verifier::type_invariant]
    spec fn wf(self) -> bool {
        self.len == self.slice@.len() * 256
    }

    /// Refers to a slice.
    pub fn new(s: &'a [u8]) -> (result: ByteSlice<'a>)
        requires
            s@.len() <= MAX_LEN,
        ensures
            result@ == s@,
    {
        let len: usize = s.len();
        proof {
            vstd::arithmetic::power2::lemma2_to64();
            vstd::bits::lemma_usize_shl_is_mul(len, 8);
        }
        ByteSlice { len: len << 8, slice: s }
    }

    /// The length of the slice.
    pub fn len(&self) -> (len: usize)
        ensures
            len == self@.len(),
    {
        proof {
            use_type_invariant(self);
        }
        let word: usize = self.len;
        assert(word >> 8 == word / 256) by (bit_vector);
        word >> 8
    }

    /// The slice itself.
    pub fn as_bytes(self) -> (bytes: &'a [u8])
        ensures
            bytes@ == self@,
    {
        self.slice
    }
}

//----------------------------------------------------------------------------
// SSOStringRef

/// The number of bytes before the first zero.
pub open spec fn leading_nonzero(s: Seq<u8>) -> nat
    decreases s.len(),
{
    if s.len() == 0 || s[0] == 0 {
        0
    } else {
        1 + leading_nonzero(s.skip(1))
    }
}

proof fn lemma_leading_nonzero(s: Seq<u8>, n: int)
    requires
        0 <= n <= s.len(),
        forall|i: int| 0 <= i < n ==> s[i] != 0,
        n == s.len() || s[n] == 0,
    ensures
        leading_nonzero(s) == n,
    decreases n,
{
    if n > 0 {
        lemma_leading_nonzero(s.skip(1), n - 1);
    }
}

proof fn lemma_leading_nonzero_bound(s: Seq<u8>)
    ensures
        leading_nonzero(s) <= s.len(),
        forall|i: int| 0 <= i < leading_nonzero(s) ==> s[i] != 0,
        leading_nonzero(s) < s.len() ==> s[leading_nonzero(s) as int] == 0,
    decreases s.len(),
{
    if s.len() != 0 && s[0] != 0 {
        lemma_leading_nonzero_bound(s.skip(1));
        assert forall|i: int| 0 <= i < leading_nonzero(s) implies s[i] != 0 by {
            if i > 0 {
                assert(s[i] == s.skip(1)[i - 1]);
            }
        }
    }
}

/// The two ways in which a string can be referred to.
enum SSOStringRefInner<'a> {
    /// The bytes themselves, at most [`SIZE_IN_BYTES`] of them, padded with zeros; none of the bytes
    /// is zero.
    Inline([u8; 16]),
    /// A slice, for a string that is too long or has a zero byte in it.
    Slice(ByteSlice<'a>),
}

/// A reference to a byte string: the string itself where it is short and free of zero bytes, and
/// else a slice.
pub struct SSOStringRef<'a> {
    inner: SSOStringRefInner<'a>,
}

impl<'a> View for SSOStringRef<'a> {
    type V = Seq<u8>;

    closed spec fn view(&self) -> Seq<u8> {
        match self.inner {
            SSOStringRefInner::Inline(bytes) => bytes@.take(leading_nonzero(bytes@) as int),
            SSOStringRefInner::Slice(slice) => slice@,
        }
    }
}

/// Whether a string is short enough, and free of zero bytes, to be held inline.
pub open spec fn fits_inline(s: Seq<u8>) -> bool {
    &&& s.len() <= SIZE_IN_BYTES
    &&& forall|i: int| 0 <= i < s.len() ==> s[i] != 0
}

impl<'a> SSOStringRef<'a> {
    /// What can be held inline is, with zeros after it; everything else is a slice.
    #[verifier::type_invariant]
    spec fn wf(self) -> bool {
        match self.inner {
            SSOStringRefInner::Inline(bytes) => {
                &&& leading_nonzero(bytes@) <= SIZE_IN_BYTES
                &&& forall|i: int|
                    leading_nonzero(bytes@) <= i < bytes@.len() ==> bytes@[i] == 0
            },
            SSOStringRefInner::Slice(slice) => !fits_inline(slice@),
        }
    }

    /// Refers to a byte string.
    pub fn new_unchecked(s: &'a [u8]) -> (result: SSOStringRef<'a>)
        requires
            s@.len() <= MAX_LEN,
        ensures
            result@ == s@,
    {
        if s.len() == 0 {
            let bytes: [u8; 16] = [0;16];
            proof {
                lemma_leading_nonzero(bytes@, 0);
            }
            assert(bytes@.take(0) =~= s@);
            SSOStringRef { inner: SSOStringRefInner::Inline(bytes) }
        } else if s.len() <= SIZE_IN_BYTES && all_nonzero(s) {
            let mut bytes: [u8; 16] = [0;16];
            let n: usize = s.len();
            for i in 0..n
                invariant
                    n == s@.len() <= SIZE_IN_BYTES <= 16,
                    forall|j: int| 0 <= j < i ==> bytes@[j] == s@[j],
                    forall|j: int| i <= j < 16 ==> bytes@[j] == 0,
            {
                bytes[i] = s[i];
            }
            proof {
                lemma_leading_nonzero(bytes@, n as int);
            }
            assert(bytes@.take(n as int) =~= s@);
            SSOStringRef { inner: SSOStringRefInner::Inline(bytes) }
        } else {
            SSOStringRef { inner: SSOStringRefInner::Slice(ByteSlice::new(s)) }
        }
    }

    /// Refers to the bytes of a string.
    pub fn new(s: &'a str) -> (result: SSOStringRef<'a>)
        requires
            utf8(s@).len() <= MAX_LEN,
        ensures
            result@ == utf8(s@),
    {
        Self::new_unchecked(s.as_bytes())
    }

    /// Whether the reference holds a string inline. The empty string counts as none.
    pub fn has_inline_data(&self) -> (inline: bool)
        ensures
            inline == (self@.len() > 0 && fits_inline(self@)),
            inline == (0 < self@.len() <= usize::BITS / 4 && forall|i: int|
                0 <= i < self@.len() ==> #[trigger] self@[i] != 0),
    {
        proof {
            use_type_invariant(self);
        }
        match &self.inner {
            SSOStringRefInner::Inline(bytes) => {
                proof {
                    lemma_leading_nonzero_bound(bytes@);
                }
                bytes[0] != 0
            },
            SSOStringRefInner::Slice(_) => false,
        }
    }

    /// The bytes of the string.
    pub fn as_bytes(&self) -> (bytes: &[u8])
        ensures
            bytes@ == self@,
    {
        proof {
            use_type_invariant(self);
        }
        match &self.inner {
            SSOStringRefInner::Inline(bytes) => {
                proof {
                    lemma_leading_nonzero_bound(bytes@);
                }
                let mut i: usize = 0;
                while i < SIZE_IN_BYTES && bytes[i] != 0
                    invariant
                        i <= SIZE_IN_BYTES <= 16,
                        forall|j: int| 0 <= j < i ==> bytes@[j] != 0,
                    decreases SIZE_IN_BYTES - i,
                {
                    i += 1;
                }
                proof {
                    lemma_leading_nonzero(bytes@, i as int);
                }
                vstd::slice::slice_subrange(bytes.as_slice(), 0, i)
            },
            SSOStringRefInner::Slice(slice) => slice.as_bytes(),
        }
    }
}

/// Whether no byte is zero.
fn all_nonzero(s: &[u8]) -> (result: bool)
    ensures
        result == (forall|i: int| 0 <= i < s@.len() ==> s@[i] != 0),
{
    let n: usize = s.len();
    for i in 0..n
        invariant
            n == s@.len(),
            forall|j: int| 0 <= j < i ==> s@[j] != 0,
    {
        if s[i] == 0 {
            return false;
        }
    }
    true
}

/// Whether two byte strings are the same.
fn bytes_equal(a: &[u8], b: &[u8]) -> (result: bool)
    ensures
        result == (a@ == b@),
{
    if a.len() != b.len() {
        return false;
    }
    let n: usize = a.len();
    for i in 0..n
        invariant
            n == a@.len() == b@.len(),
            forall|j: int| 0 <= j < i ==> a@[j] == b@[j],
    {
        if a[i] != b[i] {
            return false;
        }
    }
    assert(a@ =~= b@);
    true
}

impl<'a> PartialEq for SSOStringRef<'a> {
    fn eq(&self, other: &SSOStringRef<'a>) -> (result: bool) {
        proof {
            use_type_invariant(self);
            use_type_invariant(other);
        }
        match (&self.inner, &other.inner) {
            (SSOStringRefInner::Inline(a), SSOStringRefInner::Inline(b)) => {
                proof {
                    lemma_leading_nonzero_bound(a@);
                    lemma_leading_nonzero_bound(b@);
                    if self@ == other@ {
                        assert forall|i: int| 0 <= i < 16 implies a@[i] == b@[i] by {
                            if i < self@.len() {
                                assert(self@[i] == a@[i]);
                                assert(other@[i] == b@[i]);
                            }
                        }
                        assert(a@ =~= b@);
                    }
                }
                bytes_equal(a.as_slice(), b.as_slice())
            },
            (SSOStringRefInner::Slice(a), SSOStringRefInner::Slice(b)) => {
                a.len() == b.len() && bytes_equal(a.as_bytes(), b.as_bytes())
            },
            (SSOStringRefInner::Inline(a), SSOStringRefInner::Slice(_)) => {
                proof {
                    lemma_leading_nonzero_bound(a@);
                }
                false
            },
            (SSOStringRefInner::Slice(_), SSOStringRefInner::Inline(b)) => {
                proof {
                    lemma_leading_nonzero_bound(b@);
                }
                false
            },
        }
    }
}

impl<'a> Eq for SSOStringRef<'a> {

}

/// What fits inline is what two machine words can hold without a zero byte in it.
pub proof fn law_fits_inline(s: Seq<u8>)
    ensures
        fits_inline(s) <==> 8 * s.len() <= 2 * usize::BITS && !s.contains(0u8),
{
    if s.contains(0u8) {
        let i = choose|i: int| 0 <= i < s.len() && s[i] == 0;
        assert(s[i] == 0);
    } else {
        assert forall|i: int| 0 <= i < s.len() implies s[i] != 0 by {
            assert(s.contains(s[i]));
        }
    }
}

/// References are equal if and only if they refer to equally many bytes and each two of these in the
/// same place are equal.
pub proof fn law_eq_is_bytes_eq<'a>(a: SSOStringRef<'a>, b: SSOStringRef<'a>)
    ensures
        vstd::std_specs::cmp::PartialEqSpec::eq_spec(&a, &b) <==> a@.len() == b@.len() && forall|
            i: int,
        |
            0 <= i < a@.len() ==> #[trigger] a@[i] == b@[i],
{
    if a@.len() == b@.len() && (forall|i: int| 0 <= i < a@.len() ==> #[trigger] a@[i] == b@[i]) {
        assert(a@ =~= b@);
    }
}

/// References to strings are equal if and only if the strings are.
pub proof fn law_eq_is_string_eq<'a>(
    a: SSOStringRef<'a>,
    b: SSOStringRef<'a>,
    s: Seq<char>,
    t: Seq<char>,
)
    requires
        a@ == utf8(s),
        b@ == utf8(t),
    ensures
        vstd::std_specs::cmp::PartialEqSpec::eq_spec(&a, &b) <==> s == t,
{
    law_utf8_injective(s, t);
}

impl<'a> vstd::std_specs::cmp::PartialEqSpecImpl for SSOStringRef<'a> {
    open spec fn obeys_eq_spec() -> bool {
        true
    }

    open spec fn eq_spec(&self, other: &SSOStringRef<'a>) -> bool {
        self@ == other@
    }
}

} // verus!
