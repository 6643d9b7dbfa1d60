//! Byte-level text helpers shared by the search components.
//!
//! The predicates are stated over UTF-8 byte sequences (`encode_utf8` of
//! the character views); since the patterns searched for start with
//! ASCII bytes, byte-level containment coincides with character-level
//! containment.

use vstd::prelude::*;
use vstd::utf8::{encode_utf8, decode_utf8};

verus! {

/// `pat` occurs in `content` at byte offset `i`.
pub open spec fn matches_at(content: Seq<u8>, pat: Seq<u8>, i: int) -> bool {
    &&& 0 <= i
    &&& i + pat.len() <= content.len()
    &&& content.subrange(i, i + pat.len() as int) == pat
}

/// `pat` occurs somewhere in `content`.
pub open spec fn contains_bytes(content: Seq<u8>, pat: Seq<u8>) -> bool {
    exists|i: int| matches_at(content, pat, i)
}

/// Byte-for-byte equality of two slices.
pub fn slice_eq(a: &[u8], b: &[u8]) -> (r: bool)
    ensures
        r == (a@ == b@),
{
    if a.len() != b.len() {
        return false;
    }
    let n = a.len();
    let mut i: usize = 0;
    while i < n
        invariant
            n == a@.len(),
            a@.len() == b@.len(),
            i <= n,
            forall|q: int| 0 <= q < i ==> a@[q] == b@[q],
        decreases n - i,
    {
        if a[i] != b[i] {
            proof {
                assert(a@[i as int] != b@[i as int]);
            }
            return false;
        }
        i = i + 1;
    }
    proof {
        assert(a@ =~= b@);
    }
    true
}

/// Character equality of two strings, decided on their bytes.
pub fn str_eq(a: &str, b: &str) -> (r: bool)
    ensures
        r == (a@ == b@),
{
    let r = slice_eq(a.as_bytes(), b.as_bytes());
    proof {
        vstd::utf8::encode_utf8_decode_utf8(a@);
        vstd::utf8::encode_utf8_decode_utf8(b@);
        assert(decode_utf8(encode_utf8(a@)) == a@);
        assert(decode_utf8(encode_utf8(b@)) == b@);
    }
    r
}

fn matches_at_exec(content: &[u8], pat: &[u8], i: usize) -> (r: bool)
    requires
        i + pat@.len() <= content@.len(),
    ensures
        r == matches_at(content@, pat@, i as int),
{
    let n = content.len();
    let m = pat.len();
    let mut j: usize = 0;
    while j < m
        invariant
            n == content@.len(),
            m == pat@.len(),
            i + m <= n,
            j <= m,
            forall|q: int| 0 <= q < j ==> content@[i + q] == pat@[q],
        decreases m - j,
    {
        if content[i + j] != pat[j] {
            proof {
                if matches_at(content@, pat@, i as int) {
                    assert(content@.subrange(i as int, i + pat@.len() as int)[j as int]
                        == content@[i + j]);
                }
            }
            return false;
        }
        j = j + 1;
    }
    proof {
        assert(content@.subrange(i as int, i + pat@.len() as int) =~= pat@);
    }
    true
}

/// Substring search over byte slices.
pub fn contains_slice(content: &[u8], pat: &[u8]) -> (r: bool)
    ensures
        r == contains_bytes(content@, pat@),
{
    let n = content.len();
    let m = pat.len();
    if m > n {
        proof {
            assert forall|i: int| !matches_at(content@, pat@, i) by {}
        }
        return false;
    }
    if m == 0 {
        proof {
            assert(matches_at(content@, pat@, 0)) by {
                assert(content@.subrange(0, 0) =~= pat@);
            }
        }
        return true;
    }
    let mut i: usize = 0;
    while i <= n - m
        invariant
            n == content@.len(),
            m == pat@.len(),
            0 < m <= n,
            i <= n - m + 1,
            forall|q: int| 0 <= q < i ==> !matches_at(content@, pat@, q),
        decreases n - m - i + 1,
    {
        if matches_at_exec(content, pat, i) {
            proof {
                assert(matches_at(content@, pat@, i as int));
            }
            return true;
        }
        i = i + 1;
    }
    proof {
        assert forall|q: int| !matches_at(content@, pat@, q) by {
            if 0 <= q && q + pat@.len() <= content@.len() {
                assert(q < i);
            }
        }
    }
    false
}

} // verus!
