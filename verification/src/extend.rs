//! The match extender: grows a candidate duplication line by line from two
//! occurrences that share a window hash, subject to a self-overlap veto.

use vstd::prelude::*;
use crate::collision::Collision;
use crate::hashing::{hash_u64s, sequence_hash};

verus! {

/// True when two occurrences refer to the same file and their line ranges,
/// each `end` lines long, touch each other.
pub open spec fn spec_overlap(left: (u32, u32), right: (u32, u32), end: u32) -> bool {
    left.0 == right.0 && (left.1 == right.1 || (right.1 >= left.1 && right.1 <= left.1 + end) || (
    left.1 >= right.1 && left.1 <= right.1 + end))
}

/// Whether two candidate occurrences are the same physical text matching
/// itself: same file, with the two `end`-line ranges touching.
pub fn overlap(left: (u32, u32), right: (u32, u32), end: u32) -> (r: bool)
    ensures
        r == spec_overlap(left, right, end),
{
    let le: u64 = left.1 as u64;
    let re: u64 = right.1 as u64;
    let e: u64 = end as u64;
    left.0 == right.0 && (left.1 == right.1 || (re >= le && re <= le + e) || (le >= re && le <= re
        + e))
}

/// Overlap does not depend on the order of the two occurrences.
pub proof fn lemma_overlap_symmetric(a: (u32, u32), b: (u32, u32), n: u32)
    ensures
        spec_overlap(a, b, n) == spec_overlap(b, a, n),
{
}

/// How many lines match when walking the two signature sequences in
/// lock-step from `li` and `ri`.
pub open spec fn match_len(l: Seq<u64>, r: Seq<u64>, li: int, ri: int) -> int
    decreases l.len() - li,
{
    if 0 <= li < l.len() && 0 <= ri < r.len() && l[li] == r[ri] {
        1 + match_len(l, r, li + 1, ri + 1)
    } else {
        0
    }
}

/// The `n` signatures of `s` starting at `start`.
pub open spec fn window(s: Seq<u64>, start: int, n: int) -> Seq<u64> {
    Seq::new(n as nat, |j: int| s[start + j])
}

/// The matched region is a genuine match: the signatures agree line for line
/// over its whole length.
pub proof fn lemma_match_len_agrees(l: Seq<u64>, r: Seq<u64>, li: int, ri: int)
    ensures
        match_len(l, r, li, ri) >= 0,
        li + match_len(l, r, li, ri) <= l.len() || match_len(l, r, li, ri) == 0,
        forall|j: int|
            0 <= j < match_len(l, r, li, ri) ==> #[trigger] l[li + j] == r[ri + j] && 0 <= li + j
                < l.len() && 0 <= ri + j < r.len(),
    decreases l.len() - li,
{
    if 0 <= li < l.len() && 0 <= ri < r.len() && l[li] == r[ri] {
        lemma_match_len_agrees(l, r, li + 1, ri + 1);
        let k = match_len(l, r, li, ri);
        assert(k == 1 + match_len(l, r, li + 1, ri + 1));
        assert forall|j: int| 0 <= j < k implies #[trigger] l[li + j] == r[ri + j] && 0 <= li + j
            < l.len() && 0 <= ri + j < r.len() by {
            if j > 0 {
                assert(l[(li + 1) + (j - 1)] == r[(ri + 1) + (j - 1)]);
                assert(0 <= (li + 1) + (j - 1) < l.len());
                assert(0 <= (ri + 1) + (j - 1) < r.len());
            }
        }
    }
}

/// Extension maximality: one more line past the matched length either runs
/// off the end of a file or fails the signature equality check.
pub proof fn lemma_match_len_maximal(l: Seq<u64>, r: Seq<u64>, li: int, ri: int)
    requires
        0 <= li,
        0 <= ri,
    ensures
        ({
            let k = match_len(l, r, li, ri);
            li + k >= l.len() || ri + k >= r.len() || l[li + k] != r[ri + k]
        }),
    decreases l.len() - li,
{
    if 0 <= li < l.len() && 0 <= ri < r.len() && l[li] == r[ri] {
        lemma_match_len_maximal(l, r, li + 1, ri + 1);
    }
}

/// Extension minimum bound: when the two seeding windows hold the same `min`
/// signatures, the lock-step walk matches at least `min` lines.
pub proof fn lemma_extension_min_bound(l: Seq<u64>, r: Seq<u64>, li: int, ri: int, min: int)
    requires
        0 <= li,
        0 <= ri,
        0 <= min,
        li + min <= l.len(),
        ri + min <= r.len(),
        forall|j: int| 0 <= j < min ==> #[trigger] l[li + j] == r[ri + j],
    ensures
        match_len(l, r, li, ri) >= min,
    decreases min,
{
    if min == 0 {
        lemma_match_len_agrees(l, r, li, ri);
    } else {
        assert(l[li + 0] == r[ri + 0]);
        assert forall|j: int| 0 <= j < min - 1 implies #[trigger] l[li + 1 + j] == r[ri + 1 + j] by {
            assert(l[li + (j + 1)] == r[ri + (j + 1)]);
        }
        lemma_extension_min_bound(l, r, li + 1, ri + 1, min - 1);
        assert(0 <= li < l.len() && 0 <= ri < r.len() && l[li] == r[ri]);
        assert(match_len(l, r, li, ri) == 1 + match_len(l, r, li + 1, ri + 1));
    }
}

/// Walk forward from two occurrences that share a window hash, in lock-step,
/// while the line signatures agree, and return the maximal extension as a
/// two-occurrence group keyed by the content hash of the matched lines.  A
/// pair whose ranges overlap in the same file — before or after extension —
/// yields no match.
pub fn maximize_collision(
    file_hashes: &Vec<Vec<u64>>,
    l_info: (u32, u32),
    r_info: (u32, u32),
    min_lines: u32,
) -> (res: Option<Collision>)
    requires
        l_info.0 < file_hashes@.len(),
        r_info.0 < file_hashes@.len(),
        file_hashes@[l_info.0 as int]@.len() <= u32::MAX,
    ensures
        ({
            let l = file_hashes@[l_info.0 as int]@;
            let r = file_hashes@[r_info.0 as int]@;
            let k = match_len(l, r, l_info.1 as int, r_info.1 as int);
            match res {
                None => spec_overlap(l_info, r_info, min_lines) || spec_overlap(
                    l_info,
                    r_info,
                    k as u32,
                ),
                Some(c) => !spec_overlap(l_info, r_info, min_lines) && !spec_overlap(
                    l_info,
                    r_info,
                    k as u32,
                ) && c.num_lines == k && c.key == sequence_hash(window(l, l_info.1 as int, k))
                    && c.files@ == seq![l_info, r_info] && c.sig == 0,
            }
        }),
{
    let ghost l = file_hashes@[l_info.0 as int]@;
    let ghost r = file_hashes@[r_info.0 as int]@;
    let ghost k = match_len(l, r, l_info.1 as int, r_info.1 as int);
    proof {
        lemma_match_len_agrees(l, r, l_info.1 as int, r_info.1 as int);
    }
    if overlap(l_info, r_info, min_lines) {
        return None;
    }
    let l_h = &file_hashes[l_info.0 as usize];
    let r_h = &file_hashes[r_info.0 as usize];
    let l_num = l_h.len();
    let r_num = r_h.len();
    let mut offset: u32 = 0;
    let mut consumed: Vec<u64> = Vec::new();
    loop
        invariant
            l == l_h@,
            r == r_h@,
            l_num == l.len(),
            r_num == r.len(),
            l.len() <= u32::MAX,
            offset <= l.len(),
            k == match_len(l, r, l_info.1 as int, r_info.1 as int),
            k == offset + match_len(l, r, l_info.1 + offset, r_info.1 + offset),
            consumed@ == window(l, l_info.1 as int, offset as int),
        ensures
            match_len(l, r, l_info.1 + offset, r_info.1 + offset) == 0,
        decreases l.len() - offset,
    {
        let l_index: u64 = l_info.1 as u64 + offset as u64;
        let r_index: u64 = r_info.1 as u64 + offset as u64;
        if l_index < l_num as u64 && r_index < r_num as u64 {
            let lv = l_h[l_index as usize];
            if lv == r_h[r_index as usize] {
                consumed.push(lv);
                offset = offset + 1;
                proof {
                    assert(consumed@ =~= window(l, l_info.1 as int, offset as int));
                }
            } else {
                break ;
            }
        } else {
            break ;
        }
    }
    proof {
        assert(match_len(l, r, l_info.1 + offset, r_info.1 + offset) == 0);
        assert(k == offset);
    }
    if overlap(l_info, r_info, offset) {
        return None;
    }
    let key = hash_u64s(consumed.as_slice());
    let files: Vec<(u32, u32)> = vec![l_info, r_info];
    Some(Collision { key, num_lines: offset, files, sig: 0 })
}

} // verus!
