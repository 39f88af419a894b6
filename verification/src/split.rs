use vstd::prelude::*;
use vstd::string::StrSliceExecFns;
use vstd::string::StringExecFns;

use crate::model::first_match_from;
use crate::model::match_at;
use crate::model::split_from;
use crate::model::split_on;

verus! {

// Executable key splitting, verified against the model's `split_on`.

/// The characters each of these strings reads as.
pub open spec fn seg_views(ss: Seq<String>) -> Seq<Seq<char>> {
    ss.map_values(|s: String| s@)
}

/// True exactly when the two slices read as the same characters.
pub(crate) fn str_eq(a: &str, b: &str) -> (r: bool)
    ensures
        r == (a@ == b@),
{
    let an = a.unicode_len();
    let bn = b.unicode_len();
    if an != bn {
        return false;
    }
    let mut i: usize = 0;
    while i < an
        invariant
            an == a@.len(),
            bn == b@.len(),
            an == bn,
            i <= an,
            forall|j: int| 0 <= j < i ==> a@[j] == b@[j],
        decreases an - i,
    {
        if a.get_char(i) != b.get_char(i) {
            return false;
        }
        i += 1;
    }
    proof {
        assert(a@ =~= b@);
    }
    true
}

/// True exactly when the delimiter occurs in `key` at position `i`.
fn match_at_exec(key: &str, d: &str, i: usize) -> (r: bool)
    requires
        i + d@.len() <= key@.len(),
        key@.len() <= usize::MAX,
    ensures
        r == match_at(key@, d@, i as int),
{
    let dn = d.unicode_len();
    let mut j: usize = 0;
    while j < dn
        invariant
            dn == d@.len(),
            i + dn <= key@.len(),
            key@.len() <= usize::MAX,
            j <= dn,
            forall|l: int| 0 <= l < j ==> key@[i + l] == d@[l],
        decreases dn - j,
    {
        if key.get_char(i + j) != d.get_char(j) {
            proof {
                assert(key@.subrange(i as int, i + dn)[j as int] != d@[j as int]);
            }
            return false;
        }
        j += 1;
    }
    proof {
        assert(key@.subrange(i as int, i + dn as int) =~= d@);
    }
    true
}

proof fn lemma_first_match_bounds(s: Seq<char>, d: Seq<char>, from: int, i: int)
    requires
        first_match_from(s, d, from) == Some(i),
    ensures
        from <= i,
        i + d.len() <= s.len(),
        match_at(s, d, i),
        d.len() >= 1,
    decreases s.len() - from,
{
    if d.len() == 0 || from + d.len() > s.len() {
    } else if match_at(s, d, from) {
    } else {
        lemma_first_match_bounds(s, d, from + 1, i);
    }
}

/// The first position at or after `from` where the delimiter occurs in `key`.
fn find_match(key: &str, d: &str, from: usize) -> (r: Option<usize>)
    requires
        d@.len() >= 1,
        key@.len() <= usize::MAX,
        d@.len() <= usize::MAX,
    ensures
        match r {
            Some(i) => first_match_from(key@, d@, from as int) == Some(i as int),
            None => first_match_from(key@, d@, from as int) is None,
        },
{
    let n = key.unicode_len();
    let dn = d.unicode_len();
    let mut i: usize = from;
    while dn <= n && i <= n - dn
        invariant
            n == key@.len(),
            dn == d@.len(),
            dn >= 1,
            from <= i,
            first_match_from(key@, d@, from as int) == first_match_from(key@, d@, i as int),
        decreases n - i,
    {
        if match_at_exec(key, d, i) {
            return Some(i);
        }
        i += 1;
    }
    None
}

/// Splits `key` into the pieces between occurrences of the delimiter; an
/// empty delimiter leaves the key whole.
pub(crate) fn split_key(key: &str, d: &str) -> (r: Vec<String>)
    ensures
        seg_views(r@) == split_on(key@, d@),
{
    let n = key.unicode_len();
    let dn = d.unicode_len();
    let mut segs: Vec<String> = Vec::new();
    if dn == 0 {
        segs.push(String::from_str(key));
        proof {
            assert(seg_views(segs@) =~= split_on(key@, d@));
        }
        return segs;
    }
    let mut start: usize = 0;
    loop
        invariant
            n == key@.len(),
            dn == d@.len(),
            dn >= 1,
            start <= n,
            split_from(key@, d@, 0) == seg_views(segs@) + split_from(key@, d@, start as int),
        decreases n - start,
    {
        match find_match(key, d, start) {
            Some(i) => {
                proof {
                    lemma_first_match_bounds(key@, d@, start as int, i as int);
                }
                let ghost old_segs = segs@;
                segs.push(String::from_str(key.substring_char(start, i)));
                proof {
                    assert(seg_views(segs@) =~= seg_views(old_segs).push(
                        key@.subrange(start as int, i as int),
                    ));
                    assert(seg_views(old_segs) + split_from(key@, d@, start as int)
                        =~= seg_views(segs@) + split_from(key@, d@, i + dn));
                }
                start = i + dn;
            },
            None => {
                let ghost old_segs = segs@;
                segs.push(String::from_str(key.substring_char(start, n)));
                proof {
                    assert(seg_views(segs@) =~= seg_views(old_segs).push(
                        key@.subrange(start as int, n as int),
                    ));
                    assert(split_from(key@, d@, 0) =~= seg_views(segs@));
                }
                return segs;
            },
        }
    }
}

} // verus!
