use vstd::prelude::*;
use vstd::slice::slice_index_get;

verus! {

/// Does `pat` occur in `s` starting at byte offset `i`?
pub open spec fn occurs_at(s: Seq<u8>, pat: Seq<u8>, i: int) -> bool {
    0 <= i && i + pat.len() <= s.len() && s.subrange(i, i + pat.len()) == pat
}

/// First offset at or after `from` where byte `b` occurs in `s`, if any.
pub open spec fn find_byte(s: Seq<u8>, b: u8, from: int) -> Option<int>
    decreases s.len() - from,
{
    if from < 0 || from >= s.len() {
        None
    } else if s[from] == b {
        Some(from)
    } else {
        find_byte(s, b, from + 1)
    }
}

/// What `find_byte` returns: the first occurrence of `b` at or after `from`.
pub proof fn lemma_find_byte_props(s: Seq<u8>, b: u8, from: int)
    requires
        0 <= from,
    ensures
        match find_byte(s, b, from) {
            Some(k) => from <= k < s.len() && s[k] == b && forall|m: int|
                from <= m < k ==> s[m] != b,
            None => forall|m: int| from <= m < s.len() ==> s[m] != b,
        },
    decreases s.len() - from,
{
    if from < 0 || from >= s.len() {
    } else if s[from] == b {
    } else {
        lemma_find_byte_props(s, b, from + 1);
    }
}

/// Compares `pat` against the bytes of `s` at offset `i`.
pub fn matches_at(s: &[u8], pat: &[u8], i: usize) -> (r: bool)
    ensures
        r == occurs_at(s@, pat@, i as int),
{
    if i > s.len() || s.len() - i < pat.len() {
        return false;
    }
    let mut j: usize = 0;
    while j < pat.len()
        invariant
            i + pat@.len() <= s@.len(),
            s@.len() <= usize::MAX,
            j <= pat@.len(),
            forall|m: int| 0 <= m < j ==> s@[i + m] == pat@[m],
        decreases pat@.len() - j,
    {
        if *slice_index_get(s, i + j) != *slice_index_get(pat, j) {
            proof {
                if occurs_at(s@, pat@, i as int) {
                    assert(s@.subrange(i as int, i + pat@.len())[j as int] == pat@[j as int]);
                }
            }
            return false;
        }
        j += 1;
    }
    proof {
        assert(s@.subrange(i as int, i + pat@.len()) =~= pat@);
    }
    true
}

/// First offset at or after `from` where byte `b` occurs in `s`.
pub fn find_byte_at(s: &[u8], b: u8, from: usize) -> (r: Option<usize>)
    ensures
        match r {
            Some(k) => find_byte(s@, b, from as int) == Some(k as int),
            None => find_byte(s@, b, from as int) == None::<int>,
        },
{
    let mut k: usize = from;
    while k < s.len()
        invariant
            from <= k,
            find_byte(s@, b, from as int) == find_byte(s@, b, k as int),
        decreases s@.len() - k,
    {
        if *slice_index_get(s, k) == b {
            return Some(k);
        }
        k += 1;
    }
    None
}

/// Appends all of `src` to `dst`.
pub fn extend_bytes(dst: &mut Vec<u8>, src: &[u8])
    ensures
        final(dst)@ == old(dst)@ + src@,
{
    let mut j: usize = 0;
    while j < src.len()
        invariant
            j <= src@.len(),
            dst@ == old(dst)@ + src@.subrange(0, j as int),
        decreases src@.len() - j,
    {
        let c = *slice_index_get(src, j);
        dst.push(c);
        proof {
            assert(old(dst)@ + src@.subrange(0, j as int + 1) =~= (old(dst)@ + src@.subrange(
                0,
                j as int,
            )).push(src@[j as int]));
        }
        j += 1;
    }
    proof {
        assert(src@.subrange(0, src@.len() as int) =~= src@);
    }
}

} // verus!
