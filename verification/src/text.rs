//! Literal, case-sensitive substring search over strings.

use vstd::prelude::*;

verus! {

/// `needle` occurs in `hay` as a contiguous run of characters.
pub open spec fn contains_seq(hay: Seq<char>, needle: Seq<char>) -> bool {
    exists|k: int|
        0 <= k && k + needle.len() <= hay.len() && #[trigger] hay.subrange(
            k,
            k + needle.len(),
        ) == needle
}

/// `needle` matches `hay` character for character at offset `k`.
fn matches_at(hay: &str, needle: &str, k: usize) -> (r: bool)
    requires
        k + needle@.len() <= hay@.len(),
        hay@.len() <= usize::MAX,
    ensures
        r == (hay@.subrange(k as int, k as int + needle@.len() as int) == needle@),
{
    let nlen = needle.unicode_len();
    let mut j: usize = 0;
    while j < nlen
        invariant
            nlen == needle@.len(),
            k + nlen <= hay@.len(),
            hay@.len() <= usize::MAX,
            j <= nlen,
            forall|j2: int| 0 <= j2 < j ==> hay@[k + j2] == needle@[j2],
        decreases nlen - j,
    {
        if hay.get_char(k + j) != needle.get_char(j) {
            assert(hay@.subrange(k as int, k as int + needle@.len() as int)[j as int]
                != needle@[j as int]);
            return false;
        }
        j += 1;
    }
    assert(hay@.subrange(k as int, k as int + needle@.len() as int) =~= needle@);
    true
}

/// Case-sensitive literal substring test: no normalization, no tokenization.
pub fn str_contains(hay: &str, needle: &str) -> (r: bool)
    ensures
        r == contains_seq(hay@, needle@),
{
    let hlen = hay.unicode_len();
    let nlen = needle.unicode_len();
    if nlen > hlen {
        return false;
    }
    let last = hlen - nlen;
    let mut k: usize = 0;
    while k <= last
        invariant
            hlen == hay@.len(),
            nlen == needle@.len(),
            nlen <= hlen,
            last == hlen - nlen,
            k <= last + 1,
            forall|k2: int|
                0 <= k2 < k ==> #[trigger] hay@.subrange(k2, k2 + needle@.len() as int)
                    != needle@,
        decreases last + 1 - k,
    {
        if matches_at(hay, needle, k) {
            return true;
        }
        assert(nlen > 0) by {
            if nlen == 0 {
                assert(hay@.subrange(k as int, k as int) =~= needle@);
            }
        }
        k += 1;
    }
    false
}

} // verus!
