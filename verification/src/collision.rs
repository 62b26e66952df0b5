//! A confirmed duplication: its content key, extended length, occurrence
//! list and canonical signature, together with the canonicalization pass.

use vstd::prelude::*;
use vstd::seq_lib::{lemma_sorted_unique, lemma_multiset_commutative};
use vstd::relations::{total_ordering, sorted_by};
use crate::hashing::{hash_u64s, sequence_hash};
use crate::extend::spec_overlap;

verus! {

/// A section of duplicated text: the content hash of the duplicated lines,
/// how many lines match, the (file id, start line) occurrences, and a
/// signature identifying the duplication independently of how it was found.
pub struct Collision {
    pub key: u64,
    pub num_lines: u32,
    pub files: Vec<(u32, u32)>,
    pub sig: u64,
}

/// Occurrence order: by start line first, then by file id.
pub open spec fn occ_le(a: (u32, u32), b: (u32, u32)) -> bool {
    a.1 < b.1 || (a.1 == b.1 && a.0 <= b.0)
}

/// The occurrence order as a function value, shared by every use so that all
/// of them speak of one comparator.
pub open spec fn occ_leq_fn() -> spec_fn((u32, u32), (u32, u32)) -> bool {
    |a: (u32, u32), b: (u32, u32)| occ_le(a, b)
}

/// Sorted in occurrence order.
pub open spec fn occ_sorted(s: Seq<(u32, u32)>) -> bool {
    forall|i: int, j: int| 0 <= i <= j < s.len() ==> occ_le(#[trigger] s[i], #[trigger] s[j])
}

/// `occ_le` is a total ordering on occurrences.
pub proof fn lemma_occ_le_total()
    ensures
        total_ordering(occ_leq_fn()),
{
    let leq = occ_leq_fn();
    assert forall|a: (u32, u32), b: (u32, u32)| #[trigger] leq(a, b) && leq(b, a) implies a == b by {
        assert(a.0 == b.0 && a.1 == b.1);
    }
}

/// The occurrence list sorted by `occ_le`.
pub open spec fn spec_sorted(files: Seq<(u32, u32)>) -> Seq<(u32, u32)> {
    files.sort_by(occ_leq_fn())
}

/// What sorting guarantees: an occurrence-ordered rearrangement.
pub proof fn lemma_spec_sorted_ensures(s: Seq<(u32, u32)>)
    ensures
        spec_sorted(s).to_multiset() == s.to_multiset(),
        occ_sorted(spec_sorted(s)),
        spec_sorted(s).len() == s.len(),
{
    let leq = occ_leq_fn();
    s.lemma_sort_by_ensures(leq);
    broadcast use vstd::seq_lib::group_to_multiset_ensures;

    let ss = spec_sorted(s);
    assert forall|i: int, j: int| 0 <= i <= j < ss.len() implies occ_le(
        #[trigger] ss[i],
        #[trigger] ss[j],
    ) by {
        if i < j {
            assert(leq(ss[i], ss[j]));
        }
    }
    assert(s.to_multiset().len() == s.len());
    assert(ss.to_multiset().len() == ss.len());
}

/// A sorted sequence is its own sorted rearrangement.
pub proof fn lemma_sorted_is_sort(s: Seq<(u32, u32)>)
    requires
        occ_sorted(s),
    ensures
        spec_sorted(s) == s,
{
    let leq = occ_leq_fn();
    lemma_occ_le_total();
    s.lemma_sort_by_ensures(leq);
    assert(sorted_by(s, leq));
    lemma_sorted_unique(s, s.sort_by(leq), leq);
    assert(s =~= s.sort_by(leq));
}

/// `s` with every element equal to its predecessor removed, starting at
/// position `i` with `last` the element kept just before `i`.
pub open spec fn dedup_rec(s: Seq<(u32, u32)>, i: int, last: (u32, u32)) -> Seq<(u32, u32)>
    decreases s.len() - i,
{
    if i < 0 || i >= s.len() {
        Seq::empty()
    } else if s[i] == last {
        dedup_rec(s, i + 1, last)
    } else {
        seq![s[i]] + dedup_rec(s, i + 1, s[i])
    }
}

/// `s` with exact adjacent duplicates removed.
pub open spec fn spec_dedup(s: Seq<(u32, u32)>) -> Seq<(u32, u32)> {
    if s.len() == 0 {
        Seq::empty()
    } else {
        seq![s[0]] + dedup_rec(s, 1, s[0])
    }
}

/// Whether every occurrence refers to the same file as the first one.
pub open spec fn all_same_file(s: Seq<(u32, u32)>) -> bool {
    forall|i: int| 0 <= i < s.len() ==> (#[trigger] s[i]).0 == s[0].0
}

/// Self-overlap elision over a sorted same-file occurrence list: the first
/// occurrence is kept, and a later one only if its start line lies more than
/// `n` lines past the start of its predecessor in the list.
pub open spec fn elide_rec(s: Seq<(u32, u32)>, n: u32, i: int) -> Seq<(u32, u32)>
    decreases s.len() - i,
{
    if i < 1 || i >= s.len() {
        Seq::empty()
    } else if s[i].1 > s[i - 1].1 + n {
        seq![s[i]] + elide_rec(s, n, i + 1)
    } else {
        elide_rec(s, n, i + 1)
    }
}

/// The occurrence list after self-overlap elision.
pub open spec fn spec_elide(s: Seq<(u32, u32)>, n: u32) -> Seq<(u32, u32)> {
    if s.len() == 0 {
        Seq::empty()
    } else {
        seq![s[0]] + elide_rec(s, n, 1)
    }
}

/// The canonical occurrence list of a group: sorted, exact duplicates
/// removed, and, when every occurrence is in one file, self-overlaps elided.
pub open spec fn spec_canonical(files: Seq<(u32, u32)>, n: u32) -> Seq<(u32, u32)> {
    let d = spec_dedup(spec_sorted(files));
    if all_same_file(d) {
        spec_elide(d, n)
    } else {
        d
    }
}

/// The flattened signature input from position `i` on: for each occurrence
/// its end line (start + 1 + length) and its file id.
pub open spec fn sig_input_rec(files: Seq<(u32, u32)>, n: u32, i: int) -> Seq<u64>
    decreases files.len() - i,
{
    if i < 0 || i >= files.len() {
        Seq::empty()
    } else {
        seq![(files[i].1 + 1 + n) as u64, files[i].0 as u64] + sig_input_rec(files, n, i + 1)
    }
}

/// The (end line, file id) data that the group signature digests.
pub open spec fn spec_sig_input(files: Seq<(u32, u32)>, n: u32) -> Seq<u64> {
    sig_input_rec(files, n, 0)
}

/// The group signature: a digest over the ordered (end line, file id) pairs.
/// The content key takes no part, so two groups that describe the same
/// physical duplication collapse to one signature.
pub open spec fn spec_signature(files: Seq<(u32, u32)>, n: u32) -> u64 {
    sequence_hash(spec_sig_input(files, n))
}

/// What dedup guarantees on a sorted list: still sorted, adjacent elements
/// distinct, every element drawn from the input past `i`, and the first kept
/// element differing from `last`.
proof fn lemma_dedup_rec_props(s: Seq<(u32, u32)>, i: int, last: (u32, u32))
    requires
        occ_sorted(s),
        0 <= i <= s.len(),
    ensures
        ({
            let e = dedup_rec(s, i, last);
            &&& occ_sorted(e)
            &&& e.len() > 0 ==> e[0] != last
            &&& forall|t: int| 1 <= t < e.len() ==> #[trigger] e[t] != e[t - 1]
            &&& forall|t: int|
                0 <= t < e.len() ==> exists|j: int| i <= j < s.len() && #[trigger] e[t] == s[j]
        }),
    decreases s.len() - i,
{
    if i < s.len() {
        if s[i] == last {
            lemma_dedup_rec_props(s, i + 1, last);
            let e = dedup_rec(s, i, last);
            assert forall|t: int| 0 <= t < e.len() implies exists|j: int|
                i <= j < s.len() && #[trigger] e[t] == s[j] by {
                let j = choose|j: int| i + 1 <= j < s.len() && e[t] == s[j];
                assert(i <= j < s.len() && e[t] == s[j]);
            }
        } else {
            lemma_dedup_rec_props(s, i + 1, s[i]);
            let ep = dedup_rec(s, i + 1, s[i]);
            let e = dedup_rec(s, i, last);
            assert(e == seq![s[i]] + ep);
            assert(e[0] == s[i]);
            assert forall|t: int| 0 <= t < e.len() implies exists|j: int|
                i <= j < s.len() && #[trigger] e[t] == s[j] by {
                if t == 0 {
                    assert(i <= i < s.len() && e[0] == s[i]);
                } else {
                    let j = choose|j: int| i + 1 <= j < s.len() && ep[t - 1] == s[j];
                    assert(i <= j < s.len() && e[t] == s[j]);
                }
            }
            assert forall|u: int, v: int| 0 <= u <= v < e.len() implies occ_le(
                #[trigger] e[u],
                #[trigger] e[v],
            ) by {
                if u == 0 && v > 0 {
                    let j = choose|j: int| i + 1 <= j < s.len() && ep[v - 1] == s[j];
                    assert(occ_le(s[i], s[j]));
                } else if u > 0 {
                    assert(occ_le(ep[u - 1], ep[v - 1]));
                }
            }
            assert forall|t: int| 1 <= t < e.len() implies #[trigger] e[t] != e[t - 1] by {
                if t == 1 {
                    assert(e[1] == ep[0] && ep[0] != s[i]);
                } else {
                    assert(ep[t - 1] != ep[t - 2]);
                }
            }
        }
    }
}

/// Dedup of a sorted list: sorted, adjacent-distinct, elements kept, first
/// element preserved.
proof fn lemma_dedup_props(s: Seq<(u32, u32)>)
    requires
        occ_sorted(s),
    ensures
        ({
            let d = spec_dedup(s);
            &&& occ_sorted(d)
            &&& forall|t: int| 1 <= t < d.len() ==> #[trigger] d[t] != d[t - 1]
            &&& forall|t: int|
                0 <= t < d.len() ==> exists|j: int| 0 <= j < s.len() && #[trigger] d[t] == s[j]
            &&& s.len() > 0 ==> d.len() > 0 && d[0] == s[0]
        }),
{
    if s.len() > 0 {
        lemma_dedup_rec_props(s, 1, s[0]);
        let ep = dedup_rec(s, 1, s[0]);
        let d = spec_dedup(s);
        assert(d == seq![s[0]] + ep);
        assert forall|t: int| 0 <= t < d.len() implies exists|j: int|
            0 <= j < s.len() && #[trigger] d[t] == s[j] by {
            if t == 0 {
                assert(0 <= 0 < s.len() && d[0] == s[0]);
            } else {
                let j = choose|j: int| 1 <= j < s.len() && ep[t - 1] == s[j];
                assert(0 <= j < s.len() && d[t] == s[j]);
            }
        }
        assert forall|u: int, v: int| 0 <= u <= v < d.len() implies occ_le(
            #[trigger] d[u],
            #[trigger] d[v],
        ) by {
            if u == 0 && v > 0 {
                let j = choose|j: int| 1 <= j < s.len() && ep[v - 1] == s[j];
                assert(occ_le(s[0], s[j]));
            } else if u > 0 {
                assert(occ_le(ep[u - 1], ep[v - 1]));
            }
        }
        assert forall|t: int| 1 <= t < d.len() implies #[trigger] d[t] != d[t - 1] by {
            if t == 1 {
                assert(d[1] == ep[0] && ep[0] != s[0]);
            } else {
                assert(ep[t - 1] != ep[t - 2]);
            }
        }
    }
}

/// On a list whose adjacent elements are all distinct, dedup changes nothing.
proof fn lemma_dedup_rec_identity(s: Seq<(u32, u32)>, i: int)
    requires
        1 <= i <= s.len(),
        forall|t: int| 1 <= t < s.len() ==> #[trigger] s[t] != s[t - 1],
    ensures
        dedup_rec(s, i, s[i - 1]) == s.subrange(i, s.len() as int),
    decreases s.len() - i,
{
    if i < s.len() {
        assert(s[i] != s[i - 1]);
        lemma_dedup_rec_identity(s, i + 1);
        assert(seq![s[i]] + s.subrange(i + 1, s.len() as int) =~= s.subrange(i, s.len() as int));
    } else {
        assert(s.subrange(i, s.len() as int) =~= Seq::<(u32, u32)>::empty());
    }
}

/// Dedup is the identity on an adjacent-distinct list.
proof fn lemma_dedup_identity(s: Seq<(u32, u32)>)
    requires
        forall|t: int| 1 <= t < s.len() ==> #[trigger] s[t] != s[t - 1],
    ensures
        spec_dedup(s) == s,
{
    if s.len() == 0 {
        assert(spec_dedup(s) =~= s);
    } else {
        lemma_dedup_rec_identity(s, 1);
        assert(seq![s[0]] + s.subrange(1, s.len() as int) =~= s);
    }
}

/// What elision guarantees on a sorted same-file list: every kept occurrence
/// is drawn from the input, starts more than `n` lines past the element
/// before position `i`, and consecutive kept occurrences keep that gap.
proof fn lemma_elide_rec_props(s: Seq<(u32, u32)>, n: u32, i: int)
    requires
        occ_sorted(s),
        1 <= i <= s.len(),
    ensures
        ({
            let e = elide_rec(s, n, i);
            &&& forall|t: int| 0 <= t < e.len() ==> s.contains(#[trigger] e[t])
            &&& forall|t: int| 0 <= t < e.len() ==> (#[trigger] e[t]).1 > s[i - 1].1 + n
            &&& forall|t: int| 1 <= t < e.len() ==> (#[trigger] e[t]).1 > e[t - 1].1 + n
        }),
    decreases s.len() - i,
{
    if i < s.len() {
        let e = elide_rec(s, n, i);
        if s[i].1 > s[i - 1].1 + n {
            lemma_elide_rec_props(s, n, i + 1);
            let ep = elide_rec(s, n, i + 1);
            assert(e == seq![s[i]] + ep);
            assert(s.contains(s[i]));
            assert(occ_le(s[i - 1], s[i]));
            assert forall|t: int| 0 <= t < e.len() implies (#[trigger] e[t]).1 > s[i - 1].1
                + n by {
                if t > 0 {
                    assert(ep[t - 1].1 > s[i].1 + n);
                }
            }
            assert forall|t: int| 1 <= t < e.len() implies (#[trigger] e[t]).1 > e[t - 1].1
                + n by {
                if t == 1 {
                    assert(e[1] == ep[0] && ep[0].1 > s[i].1 + n);
                } else {
                    assert(ep[t - 1].1 > ep[t - 2].1 + n);
                }
            }
        } else {
            lemma_elide_rec_props(s, n, i + 1);
            let ep = elide_rec(s, n, i + 1);
            assert(e == ep);
            assert(occ_le(s[i - 1], s[i]));
            assert forall|t: int| 0 <= t < e.len() implies (#[trigger] e[t]).1 > s[i - 1].1
                + n by {
                assert(ep[t].1 > s[i].1 + n);
            }
        }
    }
}

/// On a list whose consecutive elements are more than `n` lines apart,
/// elision changes nothing.
proof fn lemma_elide_rec_identity(s: Seq<(u32, u32)>, n: u32, i: int)
    requires
        1 <= i <= s.len(),
        forall|t: int| 1 <= t < s.len() ==> (#[trigger] s[t]).1 > s[t - 1].1 + n,
    ensures
        elide_rec(s, n, i) == s.subrange(i, s.len() as int),
    decreases s.len() - i,
{
    if i < s.len() {
        assert(s[i].1 > s[i - 1].1 + n);
        lemma_elide_rec_identity(s, n, i + 1);
        assert(seq![s[i]] + s.subrange(i + 1, s.len() as int) =~= s.subrange(i, s.len() as int));
    } else {
        assert(s.subrange(i, s.len() as int) =~= Seq::<(u32, u32)>::empty());
    }
}

/// A start-line gap holds across any distance, not only between neighbours.
proof fn lemma_gap_chain(c: Seq<(u32, u32)>, n: u32, i: int, j: int)
    requires
        forall|t: int| 1 <= t < c.len() ==> (#[trigger] c[t]).1 > c[t - 1].1 + n,
        0 <= i < j < c.len(),
    ensures
        c[j].1 > c[i].1 + n,
    decreases j - i,
{
    if j > i + 1 {
        lemma_gap_chain(c, n, i + 1, j);
        assert(c[i + 1].1 > c[i].1 + n);
    } else {
        assert(c[j].1 > c[j - 1].1 + n);
    }
}

/// The canonical occurrence list, seen as a whole: sorted with adjacent
/// elements distinct, and, in the same-file case, consecutive occurrences
/// more than `num_lines` apart and all drawn from the deduplicated list.
#[verifier::rlimit(100)]
#[verifier::spinoff_prover]
proof fn lemma_canonical_props(s: Seq<(u32, u32)>, n: u32)
    ensures
        ({
            let d = spec_dedup(spec_sorted(s));
            let c = spec_canonical(s, n);
            &&& occ_sorted(c)
            &&& forall|t: int| 1 <= t < c.len() ==> #[trigger] c[t] != c[t - 1]
            &&& all_same_file(d) ==> (forall|t: int|
                1 <= t < c.len() ==> (#[trigger] c[t]).1 > c[t - 1].1 + n)
            &&& all_same_file(d) ==> all_same_file(c)
            &&& !all_same_file(d) ==> c == d
        }),
{
    let ss = spec_sorted(s);
    let d = spec_dedup(ss);
    let c = spec_canonical(s, n);
    lemma_spec_sorted_ensures(s);
    lemma_dedup_props(ss);
    if all_same_file(d) {
        if d.len() == 0 {
            assert(c =~= Seq::<(u32, u32)>::empty());
        } else {
            lemma_elide_rec_props(d, n, 1);
            let ep = elide_rec(d, n, 1);
            assert(c == seq![d[0]] + ep);
            assert forall|t: int| 1 <= t < c.len() implies (#[trigger] c[t]).1 > c[t - 1].1
                + n by {
                if t == 1 {
                    assert(c[1] == ep[0] && ep[0].1 > d[0].1 + n);
                } else {
                    assert(ep[t - 1].1 > ep[t - 2].1 + n);
                }
            }
            assert forall|u: int, v: int| 0 <= u <= v < c.len() implies occ_le(
                #[trigger] c[u],
                #[trigger] c[v],
            ) by {
                if u < v {
                    lemma_gap_chain(c, n, u, v);
                }
            }
            assert forall|t: int| 1 <= t < c.len() implies #[trigger] c[t] != c[t - 1] by {
                assert(c[t].1 > c[t - 1].1 + n);
            }
            assert forall|t: int| 0 <= t < c.len() implies (#[trigger] c[t]).0 == c[0].0 by {
                if t > 0 {
                    assert(d.contains(ep[t - 1]));
                    let j = choose|j: int| 0 <= j < d.len() && d[j] == ep[t - 1];
                    assert(d[j].0 == d[0].0);
                }
            }
        }
    }
}

/// Signature permutation invariance: canonicalizing a group whose occurrence
/// list holds the same occurrences, in any order, yields the same canonical
/// list and therefore the same signature.
pub proof fn lemma_canonical_permutation_invariant(
    a: Seq<(u32, u32)>,
    b: Seq<(u32, u32)>,
    n: u32,
)
    requires
        a.to_multiset() == b.to_multiset(),
    ensures
        spec_canonical(a, n) == spec_canonical(b, n),
        spec_signature(spec_canonical(a, n), n) == spec_signature(spec_canonical(b, n), n),
{
    let leq = occ_leq_fn();
    lemma_occ_le_total();
    a.lemma_sort_by_ensures(leq);
    b.lemma_sort_by_ensures(leq);
    lemma_sorted_unique(a.sort_by(leq), b.sort_by(leq), leq);
    assert(spec_sorted(a) =~= spec_sorted(b));
    assert(spec_sorted(a) == spec_sorted(b));
}

/// Idempotent canonicalization: running the canonicalizer on an already
/// canonical occurrence list changes nothing.
pub proof fn lemma_canonical_idempotent(s: Seq<(u32, u32)>, n: u32)
    ensures
        spec_canonical(spec_canonical(s, n), n) == spec_canonical(s, n),
{
    let ss = spec_sorted(s);
    let d = spec_dedup(ss);
    let c = spec_canonical(s, n);
    lemma_spec_sorted_ensures(s);
    lemma_dedup_props(ss);
    lemma_canonical_props(s, n);
    lemma_sorted_is_sort(c);
    lemma_dedup_identity(c);
    assert(spec_dedup(spec_sorted(c)) == c);
    if all_same_file(d) {
        assert(all_same_file(c));
        if c.len() == 0 {
            assert(spec_canonical(c, n) =~= c);
        } else {
            lemma_elide_rec_identity(c, n, 1);
            assert(seq![c[0]] + c.subrange(1, c.len() as int) =~= c);
            assert(spec_elide(c, n) == c);
        }
    } else {
        assert(c == d);
        assert(!all_same_file(spec_dedup(spec_sorted(c))));
    }
}

/// Self-overlap elision: after canonicalizing a group whose occurrences all
/// lie in one file, no two surviving occurrences overlap.
pub proof fn lemma_no_overlap_after_canonical(s: Seq<(u32, u32)>, n: u32)
    requires
        all_same_file(spec_dedup(spec_sorted(s))),
    ensures
        ({
            let c = spec_canonical(s, n);
            forall|i: int, j: int|
                0 <= i < j < c.len() ==> !spec_overlap(#[trigger] c[i], #[trigger] c[j], n)
        }),
{
    let c = spec_canonical(s, n);
    lemma_canonical_props(s, n);
    assert forall|i: int, j: int| 0 <= i < j < c.len() implies !spec_overlap(
        #[trigger] c[i],
        #[trigger] c[j],
        n,
    ) by {
        lemma_gap_chain(c, n, i, j);
    }
}


/// A permutation holds the same occurrences.
proof fn lemma_occ_perm_contains(a: Seq<(u32, u32)>, b: Seq<(u32, u32)>, x: (u32, u32))
    requires
        a.to_multiset() == b.to_multiset(),
        a.contains(x),
    ensures
        b.contains(x),
{
    broadcast use vstd::seq_lib::group_to_multiset_ensures;

    assert(a.to_multiset().contains(x));
}

/// Every occurrence that survives canonicalization already stood in the
/// group's occurrence list.
pub proof fn lemma_canonical_elements(s: Seq<(u32, u32)>, n: u32)
    ensures
        forall|t: int|
            0 <= t < spec_canonical(s, n).len() ==> s.contains(
                #[trigger] spec_canonical(s, n)[t],
            ),
{
    let ss = spec_sorted(s);
    let d = spec_dedup(ss);
    let c = spec_canonical(s, n);
    lemma_spec_sorted_ensures(s);
    lemma_dedup_props(ss);
    assert forall|t: int| 0 <= t < d.len() implies s.contains(#[trigger] d[t]) by {
        let j = choose|j: int| 0 <= j < ss.len() && d[t] == ss[j];
        assert(ss.contains(ss[j]));
        lemma_occ_perm_contains(ss, s, ss[j]);
    }
    if all_same_file(d) {
        if d.len() > 0 {
            lemma_elide_rec_props(d, n, 1);
            let ep = elide_rec(d, n, 1);
            assert(c == seq![d[0]] + ep);
            assert forall|t: int| 0 <= t < c.len() implies s.contains(#[trigger] c[t]) by {
                if t == 0 {
                    assert(c[0] == d[0]);
                    assert(s.contains(d[0]));
                } else {
                    assert(d.contains(ep[t - 1]));
                    let j = choose|j: int| 0 <= j < d.len() && #[trigger] d[j] == ep[t - 1];
                    assert(s.contains(d[j]));
                }
            }
        }
    }
}

/// Canonicalization never empties a group.
pub proof fn lemma_canonical_nonempty(s: Seq<(u32, u32)>, n: u32)
    requires
        s.len() >= 1,
    ensures
        spec_canonical(s, n).len() >= 1,
{
    lemma_spec_sorted_ensures(s);
    lemma_dedup_props(spec_sorted(s));
}

/// Exec comparison in occurrence order.
fn occ_le_exec(a: (u32, u32), b: (u32, u32)) -> (r: bool)
    ensures
        r == occ_le(a, b),
{
    a.1 < b.1 || (a.1 == b.1 && a.0 <= b.0)
}

/// Insert `x` into a sorted occurrence list, keeping it sorted.
fn insert_sorted(out: &mut Vec<(u32, u32)>, x: (u32, u32))
    requires
        occ_sorted(old(out)@),
    ensures
        occ_sorted(final(out)@),
        final(out)@.to_multiset() == old(out)@.to_multiset().insert(x),
{
    let ghost s = out@;
    let mut k: usize = 0;
    while k < out.len() && !occ_le_exec(x, out[k])
        invariant
            out@ == s,
            0 <= k <= s.len(),
            forall|i: int| 0 <= i < k ==> !occ_le(x, #[trigger] s[i]),
        decreases s.len() - k,
    {
        k += 1;
    }
    out.insert(k, x);
    proof {
        let t = out@;
        assert(t == s.insert(k as int, x));
        assert forall|i: int, j: int| 0 <= i <= j < t.len() implies occ_le(
            #[trigger] t[i],
            #[trigger] t[j],
        ) by {
            if j < k {
                assert(occ_le(s[i], s[j]));
            } else if i < k && j == k {
                assert(!occ_le(x, s[i]));
            } else if i == k && j == k {
            } else if i == k && j > k {
                if k < s.len() {
                    assert(occ_le(x, s[k as int]));
                    assert(occ_le(s[k as int], s[j - 1]));
                }
            } else if i < k && j > k {
                assert(occ_le(s[i], s[j - 1]));
            } else {
                assert(occ_le(s[i - 1], s[j - 1]));
            }
        }
        broadcast use vstd::seq_lib::group_to_multiset_ensures;

        assert(t =~= s.subrange(0, k as int).push(x) + s.subrange(k as int, s.len() as int));
        assert(s =~= s.subrange(0, k as int) + s.subrange(k as int, s.len() as int));
        lemma_multiset_commutative(
            s.subrange(0, k as int).push(x),
            s.subrange(k as int, s.len() as int),
        );
        lemma_multiset_commutative(s.subrange(0, k as int), s.subrange(k as int, s.len() as int));
        assert(s.subrange(0, k as int).push(x).to_multiset() == s.subrange(
            0,
            k as int,
        ).to_multiset().insert(x));
        assert(t.to_multiset() =~= s.to_multiset().insert(x));
    }
}

/// Sort an occurrence list by (start line, file id).
fn sort_occurrences(files: &mut Vec<(u32, u32)>)
    ensures
        final(files)@ == spec_sorted(old(files)@),
{
    let ghost s = files@;
    let mut out: Vec<(u32, u32)> = Vec::new();
    proof {
        assert(out@ =~= s.subrange(0, 0));
    }
    let mut i: usize = 0;
    while i < files.len()
        invariant
            files@ == s,
            0 <= i <= s.len(),
            occ_sorted(out@),
            out@.to_multiset() == s.subrange(0, i as int).to_multiset(),
        decreases s.len() - i,
    {
        proof {
            broadcast use vstd::seq_lib::group_to_multiset_ensures;

            assert(s.subrange(0, i + 1) =~= s.subrange(0, i as int).push(s[i as int]));
        }
        let x = files[i];
        insert_sorted(&mut out, x);
        i += 1;
    }
    proof {
        let leq = occ_leq_fn();
        assert(s.subrange(0, s.len() as int) =~= s);
        lemma_occ_le_total();
        s.lemma_sort_by_ensures(leq);
        assert(sorted_by(out@, leq));
        lemma_sorted_unique(out@, s.sort_by(leq), leq);
        assert(out@ =~= spec_sorted(s));
    }
    *files = out;
}

/// Remove exact adjacent duplicates from an occurrence list.
fn dedup_occurrences(files: &mut Vec<(u32, u32)>)
    ensures
        final(files)@ == spec_dedup(old(files)@),
{
    let ghost s = files@;
    if files.len() == 0 {
        return ;
    }
    let mut out: Vec<(u32, u32)> = Vec::new();
    let first = files[0];
    out.push(first);
    let mut last = first;
    let mut i: usize = 1;
    while i < files.len()
        invariant
            files@ == s,
            s.len() >= 1,
            1 <= i <= s.len(),
            spec_dedup(s) == out@ + dedup_rec(s, i as int, last),
        decreases s.len() - i,
    {
        let cur = files[i];
        if !(cur.0 == last.0 && cur.1 == last.1) {
            proof {
                assert(cur != last);
                assert(out@ + (seq![cur] + dedup_rec(s, i + 1, cur)) =~= out@.push(cur)
                    + dedup_rec(s, i + 1, cur));
            }
            out.push(cur);
            last = cur;
        } else {
            proof {
                assert(cur == last);
            }
        }
        i += 1;
    }
    proof {
        assert(dedup_rec(s, s.len() as int, last) == Seq::<(u32, u32)>::empty());
        assert(out@ + Seq::<(u32, u32)>::empty() =~= out@);
    }
    *files = out;
}

impl Collision {
    /// The canonical identity of this group, as computed by `scrub`.
    pub fn signature(&self) -> (r: u64)
        ensures
            r == self.sig,
    {
        self.sig
    }

    /// When every occurrence of the group lies in one file, collapse runs of
    /// self-overlapping occurrences, keeping an occurrence only when it
    /// starts more than `num_lines` lines after its predecessor.
    pub fn remove_overlap_same_file(&mut self)
        requires
            old(self).files@.len() >= 1,
        ensures
            final(self).files@ == if all_same_file(old(self).files@) {
                spec_elide(old(self).files@, old(self).num_lines)
            } else {
                old(self).files@
            },
            final(self).key == old(self).key,
            final(self).num_lines == old(self).num_lines,
            final(self).sig == old(self).sig,
    {
        let ghost s = self.files@;
        let n = self.num_lines;
        let first_file = self.files[0].0;
        let mut same = true;
        let mut j: usize = 0;
        while j < self.files.len()
            invariant
                self == old(self),
                self.files@ == s,
                s.len() >= 1,
                0 <= j <= s.len(),
                first_file == s[0].0,
                same == (forall|t: int| 0 <= t < j ==> (#[trigger] s[t]).0 == s[0].0),
            decreases s.len() - j,
        {
            if self.files[j].0 != first_file {
                same = false;
            }
            j += 1;
        }
        if !same {
            return ;
        }
        let mut keep: Vec<(u32, u32)> = Vec::new();
        keep.push(self.files[0]);
        let mut i: usize = 1;
        while i < self.files.len()
            invariant
                self == old(self),
                self.files@ == s,
                n == self.num_lines,
                s.len() >= 1,
                1 <= i <= s.len(),
                spec_elide(s, n) == keep@ + elide_rec(s, n, i as int),
            decreases s.len() - i,
        {
            let cur = self.files[i];
            let prev = self.files[i - 1];
            if cur.1 as u64 > prev.1 as u64 + n as u64 {
                proof {
                    assert(keep@ + (seq![cur] + elide_rec(s, n, i + 1)) =~= keep@.push(cur)
                        + elide_rec(s, n, i + 1));
                }
                keep.push(cur);
            }
            i += 1;
        }
        proof {
            assert(elide_rec(s, n, s.len() as int) == Seq::<(u32, u32)>::empty());
            assert(keep@ + Seq::<(u32, u32)>::empty() =~= keep@);
        }
        self.files = keep;
    }

    /// Recompute the group signature from the current occurrence list.
    pub fn _signature(&mut self)
        ensures
            final(self).sig == spec_signature(old(self).files@, old(self).num_lines),
            final(self).files == old(self).files,
            final(self).key == old(self).key,
            final(self).num_lines == old(self).num_lines,
    {
        let ghost s = self.files@;
        let n = self.num_lines;
        let mut rep: Vec<u64> = Vec::new();
        let mut i: usize = 0;
        while i < self.files.len()
            invariant
                self == old(self),
                self.files@ == s,
                n == self.num_lines,
                0 <= i <= s.len(),
                spec_sig_input(s, n) == rep@ + sig_input_rec(s, n, i as int),
            decreases s.len() - i,
        {
            let o = self.files[i];
            let end: u64 = o.1 as u64 + 1 + n as u64;
            proof {
                assert(end == (s[i as int].1 + 1 + n) as u64);
                assert(rep@ + (seq![end, o.0 as u64] + sig_input_rec(s, n, i + 1)) =~= rep@.push(
                    end,
                ).push(o.0 as u64) + sig_input_rec(s, n, i + 1));
            }
            rep.push(end);
            rep.push(o.0 as u64);
            i += 1;
        }
        proof {
            assert(sig_input_rec(s, n, s.len() as int) == Seq::<u64>::empty());
            assert(rep@ + Seq::<u64>::empty() =~= rep@);
        }
        self.sig = hash_u64s(rep.as_slice());
    }

    /// Canonicalize the group in place: sort the occurrences, drop exact
    /// duplicates, resolve same-file self-overlaps, and recompute the group
    /// signature from what survives.
    pub fn scrub(&mut self)
        requires
            old(self).files@.len() >= 1,
        ensures
            final(self).files@ == spec_canonical(old(self).files@, old(self).num_lines),
            final(self).sig == spec_signature(
                spec_canonical(old(self).files@, old(self).num_lines),
                old(self).num_lines,
            ),
            final(self).key == old(self).key,
            final(self).num_lines == old(self).num_lines,
    {
        let ghost s = self.files@;
        proof {
            broadcast use vstd::seq_lib::group_to_multiset_ensures;

            lemma_spec_sorted_ensures(s);
            assert(spec_sorted(s).len() == s.len());
        }
        sort_occurrences(&mut self.files);
        dedup_occurrences(&mut self.files);
        self.remove_overlap_same_file();
        self._signature();
    }
}

} // verus!
