//! The final pass over aggregated groups: canonicalization, one group per
//! signature, and presentation order.

use vstd::prelude::*;
use vstd::multiset::Multiset;
use crate::collision::{Collision, spec_canonical, spec_signature};
use crate::index::{GroupIndex, results_contents, results_into_groups};

verus! {

/// A group exactly as the aggregation left it under key `k`.
pub open spec fn raw_of(c: Collision, k: u64, e: (u32, Seq<(u32, u32)>)) -> bool {
    c.key == k && c.num_lines == e.0 && c.files@ == e.1 && c.sig == 0
}

/// A group as canonicalization leaves the entry stored under key `k`.
pub open spec fn is_scrubbed_of(c: Collision, k: u64, e: (u32, Seq<(u32, u32)>)) -> bool {
    c.key == k && c.num_lines == e.0 && c.files@ == spec_canonical(e.1, e.0) && c.sig
        == spec_signature(spec_canonical(e.1, e.0), e.0)
}

/// Some group of `r` stands for the stored entry `e`: it carries the
/// signature of `e`'s canonical form and at least `e`'s line count.
pub open spec fn class_covered(e: (u32, Seq<(u32, u32)>), r: Seq<Collision>) -> bool {
    exists|i: int|
        0 <= i < r.len() && (#[trigger] r[i]).sig == spec_signature(
            spec_canonical(e.1, e.0),
            e.0,
        ) && r[i].num_lines >= e.0
}

/// Some group of `r` stands for `g`: same signature, at least as many lines.
pub open spec fn covered_by(g: Collision, r: Seq<Collision>) -> bool {
    exists|i: int| 0 <= i < r.len() && g.sig == (#[trigger] r[i]).sig && r[i].num_lines >= g.num_lines
}

/// Final presentation order: by line count ascending, ties by the first
/// occurrence's start line, then file id.
pub open spec fn report_le(a: Collision, b: Collision) -> bool {
    a.num_lines < b.num_lines || (a.num_lines == b.num_lines && (a.files@[0].1 < b.files@[0].1 || (
    a.files@[0].1 == b.files@[0].1 && a.files@[0].0 <= b.files@[0].0)))
}

#[verifier::spinoff_prover]
fn report_le_exec(a: &Collision, b: &Collision) -> (r: bool)
    requires
        a.files@.len() >= 1,
        b.files@.len() >= 1,
    ensures
        r == report_le(*a, *b),
{
    if a.num_lines != b.num_lines {
        a.num_lines < b.num_lines
    } else {
        let af = a.files[0];
        let bf = b.files[0];
        af.1 < bf.1 || (af.1 == bf.1 && af.0 <= bf.0)
    }
}

/// Insert a group into a list ordered for presentation, keeping the order.
#[verifier::spinoff_prover]
fn insert_report_sorted(out: &mut Vec<Collision>, x: Collision)
    requires
        forall|i: int, j: int|
            0 <= i <= j < old(out)@.len() ==> report_le(
                #[trigger] old(out)@[i],
                #[trigger] old(out)@[j],
            ),
        forall|i: int| 0 <= i < old(out)@.len() ==> (#[trigger] old(out)@[i]).files@.len() >= 1,
        forall|i: int, j: int|
            0 <= i < j < old(out)@.len() ==> (#[trigger] old(out)@[i]).sig != (
            #[trigger] old(out)@[j]).sig,
        forall|i: int| 0 <= i < old(out)@.len() ==> (#[trigger] old(out)@[i]).sig != x.sig,
        x.files@.len() >= 1,
    ensures
        forall|i: int, j: int|
            0 <= i <= j < final(out)@.len() ==> report_le(
                #[trigger] final(out)@[i],
                #[trigger] final(out)@[j],
            ),
        forall|i: int| 0 <= i < final(out)@.len() ==> (#[trigger] final(out)@[i]).files@.len() >= 1,
        forall|i: int, j: int|
            0 <= i < j < final(out)@.len() ==> (#[trigger] final(out)@[i]).sig != (
            #[trigger] final(out)@[j]).sig,
        forall|i: int|
            0 <= i < final(out)@.len() ==> #[trigger] final(out)@[i] == x || old(out)@.contains(
                final(out)@[i],
            ),
        final(out)@.to_multiset() == old(out)@.to_multiset().insert(x),
{
    let ghost s = out@;
    let mut k: usize = 0;
    while k < out.len() && !report_le_exec(&x, &out[k])
        invariant
            out@ == s,
            x.files@.len() >= 1,
            forall|i: int| 0 <= i < s.len() ==> (#[trigger] s[i]).files@.len() >= 1,
            0 <= k <= s.len(),
            forall|i: int| 0 <= i < k ==> !report_le(x, #[trigger] s[i]),
        decreases s.len() - k,
    {
        k += 1;
    }
    out.insert(k, x);
    proof {
        let t = out@;
        assert(t == s.insert(k as int, x));
        assert forall|i: int, j: int| 0 <= i <= j < t.len() implies report_le(
            #[trigger] t[i],
            #[trigger] t[j],
        ) by {
            if j < k {
                assert(report_le(s[i], s[j]));
            } else if i < k && j == k {
                assert(!report_le(x, s[i]));
            } else if i == k && j == k {
            } else if i == k && j > k {
                if k < s.len() {
                    assert(report_le(x, s[k as int]));
                    assert(report_le(s[k as int], s[j - 1]));
                }
            } else if i < k && j > k {
                assert(report_le(s[i], s[j - 1]));
            } else {
                assert(report_le(s[i - 1], s[j - 1]));
            }
        }
        assert forall|i: int| 0 <= i < t.len() implies #[trigger] t[i] == x || s.contains(
            t[i],
        ) by {
            if i < k {
                assert(t[i] == s[i]);
            } else if i > k {
                assert(t[i] == s[i - 1]);
            }
        }
        assert forall|i: int, j: int| 0 <= i < j < t.len() implies (#[trigger] t[i]).sig != (
        #[trigger] t[j]).sig by {
            if i < k && j < k {
                assert(t[i] == s[i] && t[j] == s[j]);
            } else if i < k && j == k {
                assert(t[i] == s[i]);
            } else if i < k && j > k {
                assert(t[i] == s[i] && t[j] == s[j - 1]);
            } else if i == k && j > k {
                assert(t[j] == s[j - 1]);
            } else if i > k && j > k {
                assert(t[i] == s[i - 1] && t[j] == s[j - 1]);
            }
        }
        broadcast use vstd::seq_lib::group_to_multiset_ensures;

        assert(t =~= s.subrange(0, k as int).push(x) + s.subrange(k as int, s.len() as int));
        assert(s =~= s.subrange(0, k as int) + s.subrange(k as int, s.len() as int));
        vstd::seq_lib::lemma_multiset_commutative(
            s.subrange(0, k as int).push(x),
            s.subrange(k as int, s.len() as int),
        );
        vstd::seq_lib::lemma_multiset_commutative(
            s.subrange(0, k as int),
            s.subrange(k as int, s.len() as int),
        );
        assert(s.subrange(0, k as int).push(x).to_multiset() == s.subrange(
            0,
            k as int,
        ).to_multiset().insert(x));
        assert(t.to_multiset() =~= s.to_multiset().insert(x));
    }
}

/// Insert a group into a list held in descending line-count order.
#[verifier::spinoff_prover]
fn insert_lines_desc(out: &mut Vec<Collision>, x: Collision)
    requires
        forall|i: int, j: int|
            0 <= i <= j < old(out)@.len() ==> (#[trigger] old(out)@[i]).num_lines >= (
            #[trigger] old(out)@[j]).num_lines,
    ensures
        forall|i: int, j: int|
            0 <= i <= j < final(out)@.len() ==> (#[trigger] final(out)@[i]).num_lines >= (
            #[trigger] final(out)@[j]).num_lines,
        final(out)@.to_multiset() == old(out)@.to_multiset().insert(x),
{
    let ghost s = out@;
    let mut k: usize = 0;
    while k < out.len() && out[k].num_lines >= x.num_lines
        invariant
            out@ == s,
            0 <= k <= s.len(),
            forall|i: int| 0 <= i < k ==> (#[trigger] s[i]).num_lines >= x.num_lines,
        decreases s.len() - k,
    {
        k += 1;
    }
    out.insert(k, x);
    proof {
        let t = out@;
        assert(t == s.insert(k as int, x));
        assert forall|i: int, j: int| 0 <= i <= j < t.len() implies (
        #[trigger] t[i]).num_lines >= (#[trigger] t[j]).num_lines by {
            if j < k {
                assert(t[i] == s[i] && t[j] == s[j]);
            } else if i < k && j == k {
                assert(t[i] == s[i]);
            } else if i < k && j > k {
                assert(t[i] == s[i] && t[j] == s[j - 1]);
                if k < s.len() {
                    assert(x.num_lines > s[k as int].num_lines);
                    assert(s[k as int].num_lines >= s[j - 1].num_lines);
                }
            } else if i == k && j > k {
                assert(t[j] == s[j - 1]);
                if k < s.len() {
                    assert(x.num_lines > s[k as int].num_lines);
                    assert(s[k as int].num_lines >= s[j - 1].num_lines);
                }
            } else if i > k {
                assert(t[i] == s[i - 1] && t[j] == s[j - 1]);
            }
        }
        broadcast use vstd::seq_lib::group_to_multiset_ensures;

        assert(t =~= s.subrange(0, k as int).push(x) + s.subrange(k as int, s.len() as int));
        assert(s =~= s.subrange(0, k as int) + s.subrange(k as int, s.len() as int));
        vstd::seq_lib::lemma_multiset_commutative(
            s.subrange(0, k as int).push(x),
            s.subrange(k as int, s.len() as int),
        );
        vstd::seq_lib::lemma_multiset_commutative(
            s.subrange(0, k as int),
            s.subrange(k as int, s.len() as int),
        );
        assert(s.subrange(0, k as int).push(x).to_multiset() == s.subrange(
            0,
            k as int,
        ).to_multiset().insert(x));
        assert(t.to_multiset() =~= s.to_multiset().insert(x));
    }
}

/// Whether a signature was seen already.
#[verifier::spinoff_prover]
fn contains_u64(v: &Vec<u64>, x: u64) -> (r: bool)
    ensures
        r == v@.contains(x),
{
    let mut i: usize = 0;
    while i < v.len()
        invariant
            0 <= i <= v@.len(),
            forall|j: int| 0 <= j < i ==> v@[j] != x,
        decreases v@.len() - i,
    {
        if v[i] == x {
            return true;
        }
        i += 1;
    }
    false
}

/// Canonicalize every group, in place of its slot.
#[verifier::spinoff_prover]
fn scrub_all(v: Vec<Collision>) -> (r: Vec<Collision>)
    requires
        forall|i: int| 0 <= i < v@.len() ==> (#[trigger] v@[i]).files@.len() >= 1,
    ensures
        r@.len() == v@.len(),
        forall|i: int|
            0 <= i < v@.len() ==> scrub_result(#[trigger] r@[i], v@[i]),
        forall|i: int| 0 <= i < r@.len() ==> (#[trigger] r@[i]).files@.len() >= 1,
{
    let ghost v0 = v@;
    let mut rest = v;
    let mut out: Vec<Collision> = Vec::new();
    while rest.len() > 0
        invariant
            out@.len() + rest@.len() == v0.len(),
            forall|i: int| 0 <= i < v0.len() ==> (#[trigger] v0[i]).files@.len() >= 1,
            forall|i: int| 0 <= i < rest@.len() ==> #[trigger] rest@[i] == v0[out@.len() + i],
            forall|i: int| 0 <= i < out@.len() ==> scrub_result(#[trigger] out@[i], v0[i]),
            forall|i: int| 0 <= i < out@.len() ==> (#[trigger] out@[i]).files@.len() >= 1,
        decreases rest@.len(),
    {
        let mut g = rest.remove(0);
        proof {
            assert(g == v0[out@.len() as int]);
            crate::collision::lemma_canonical_nonempty(g.files@, g.num_lines);
        }
        g.scrub();
        out.push(g);
    }
    out
}

/// What canonicalization makes of one group.
pub open spec fn scrub_result(c: Collision, orig: Collision) -> bool {
    c.key == orig.key && c.num_lines == orig.num_lines && c.files@ == spec_canonical(
        orig.files@,
        orig.num_lines,
    ) && c.sig == spec_signature(spec_canonical(orig.files@, orig.num_lines), orig.num_lines)
}

/// Keep the first group seen for each distinct signature, in order.  The
/// input comes ordered by descending line count, so the keeper of a
/// signature has the greatest line count of its class.
#[verifier::spinoff_prover]
fn dedup_by_sig(v: Vec<Collision>) -> (r: Vec<Collision>)
    requires
        forall|i: int| 0 <= i < v@.len() ==> (#[trigger] v@[i]).files@.len() >= 1,
        forall|i: int, j: int|
            0 <= i <= j < v@.len() ==> (#[trigger] v@[i]).num_lines >= (
            #[trigger] v@[j]).num_lines,
    ensures
        forall|i: int| 0 <= i < r@.len() ==> v@.contains(#[trigger] r@[i]),
        forall|i: int, j: int|
            0 <= i < j < r@.len() ==> (#[trigger] r@[i]).sig != (#[trigger] r@[j]).sig,
        forall|j: int| 0 <= j < v@.len() ==> covered_by(#[trigger] v@[j], r@),
        forall|i: int| 0 <= i < r@.len() ==> (#[trigger] r@[i]).files@.len() >= 1,
{
    let ghost v0 = v@;
    let mut rest = v;
    let mut out: Vec<Collision> = Vec::new();
    let mut seen: Vec<u64> = Vec::new();
    // reps[i]: which input slot out[i] came from; keeper[j]: which output
    // slot covers input slot j's signature
    let ghost mut reps: Seq<int> = Seq::empty();
    let ghost mut keeper: Seq<int> = Seq::empty();
    while rest.len() > 0
        invariant
            rest@.len() <= v0.len(),
            v0 == v@,
            forall|i: int| 0 <= i < v0.len() ==> (#[trigger] v0[i]).files@.len() >= 1,
            forall|i: int, j: int|
                0 <= i <= j < v0.len() ==> (#[trigger] v0[i]).num_lines >= (
                #[trigger] v0[j]).num_lines,
            forall|i: int|
                0 <= i < rest@.len() ==> #[trigger] rest@[i] == v0[v0.len() - rest@.len() + i],
            reps.len() == out@.len(),
            forall|i: int|
                0 <= i < out@.len() ==> 0 <= #[trigger] reps[i] < v0.len() - rest@.len()
                    && out@[i] == v0[reps[i]],
            forall|i: int, j: int|
                0 <= i < j < out@.len() ==> (#[trigger] out@[i]).sig != (#[trigger] out@[j]).sig,
            seen@.len() == out@.len(),
            forall|i: int| 0 <= i < out@.len() ==> #[trigger] seen@[i] == out@[i].sig,
            keeper.len() == v0.len() - rest@.len(),
            forall|j: int|
                0 <= j < keeper.len() ==> 0 <= #[trigger] keeper[j] < out@.len()
                    && v0[j].sig == out@[keeper[j]].sig && out@[keeper[j]].num_lines
                    >= v0[j].num_lines,
        decreases rest@.len(),
    {
        let ghost out_pre = out@;
        let ghost seen_pre = seen@;
        let ghost p = v0.len() - rest@.len();
        let g = rest.remove(0);
        proof {
            assert(g == v0[p as int]);
        }
        let fresh = !contains_u64(&seen, g.sig);
        if fresh {
            proof {
                assert forall|i: int| 0 <= i < out_pre.len() implies (
                #[trigger] out_pre[i]).sig != g.sig by {
                    assert(seen_pre[i] == out_pre[i].sig);
                    assert(seen_pre[i] != g.sig);
                }
            }
            seen.push(g.sig);
            out.push(g);
            proof {
                reps = reps.push(p);
                keeper = keeper.push(out@.len() - 1);
            }
        } else {
            proof {
                let sj = choose|sj: int| 0 <= sj < seen_pre.len() && seen_pre[sj] == g.sig;
                assert(out@[sj].sig == g.sig);
                assert(out@[sj] == v0[reps[sj]]);
                assert(v0[reps[sj]].num_lines >= v0[p as int].num_lines);
                keeper = keeper.push(sj);
            }
        }
    }
    proof {
        assert forall|i: int| 0 <= i < out@.len() implies v@.contains(#[trigger] out@[i]) by {
            assert(out@[i] == v0[reps[i]]);
            assert(v@[reps[i]] == out@[i]);
        }
        assert forall|j: int| 0 <= j < v@.len() implies covered_by(#[trigger] v@[j], out@) by {
            let i = keeper[j];
            assert(0 <= i < out@.len() && v@[j].sig == out@[i].sig && out@[i].num_lines
                >= v@[j].num_lines);
        }
    }
    out
}

/// A permutation holds the same elements.
proof fn lemma_perm_contains(a: Seq<Collision>, b: Seq<Collision>, x: Collision)
    requires
        a.to_multiset() == b.to_multiset(),
        a.contains(x),
    ensures
        b.contains(x),
{
    broadcast use vstd::seq_lib::group_to_multiset_ensures;

    assert(a.to_multiset().contains(x));
}

/// Sort groups by descending line count.
#[verifier::spinoff_prover]
fn sort_lines_desc(v: Vec<Collision>) -> (r: Vec<Collision>)
    ensures
        r@.to_multiset() == v@.to_multiset(),
        forall|i: int, j: int|
            0 <= i <= j < r@.len() ==> (#[trigger] r@[i]).num_lines >= (
            #[trigger] r@[j]).num_lines,
{
    let ghost v0 = v@;
    let mut rest = v;
    let mut out: Vec<Collision> = Vec::new();
    proof {
        broadcast use vstd::seq_lib::group_to_multiset_ensures;

        assert(out@.to_multiset().add(rest@.to_multiset()) =~= v0.to_multiset());
    }
    while rest.len() > 0
        invariant
            out@.to_multiset().add(rest@.to_multiset()) == v0.to_multiset(),
            forall|i: int, j: int|
                0 <= i <= j < out@.len() ==> (#[trigger] out@[i]).num_lines >= (
                #[trigger] out@[j]).num_lines,
        decreases rest@.len(),
    {
        proof {
            broadcast use vstd::seq_lib::group_to_multiset_ensures;

            assert(rest@.to_multiset().contains(rest@[0]));
            assert(out@.to_multiset().insert(rest@[0]).add(rest@.to_multiset().remove(rest@[0]))
                =~= out@.to_multiset().add(rest@.to_multiset()));
        }
        let g = rest.remove(0);
        insert_lines_desc(&mut out, g);
    }
    proof {
        broadcast use vstd::seq_lib::group_to_multiset_ensures;

        assert(out@.to_multiset().add(Multiset::empty()) =~= out@.to_multiset());
    }
    out
}

/// Sort groups into presentation order.
#[verifier::spinoff_prover]
fn sort_report(v: Vec<Collision>) -> (r: Vec<Collision>)
    requires
        forall|i: int| 0 <= i < v@.len() ==> (#[trigger] v@[i]).files@.len() >= 1,
        forall|i: int, j: int|
            0 <= i < j < v@.len() ==> (#[trigger] v@[i]).sig != (#[trigger] v@[j]).sig,
    ensures
        r@.to_multiset() == v@.to_multiset(),
        forall|i: int, j: int|
            0 <= i <= j < r@.len() ==> report_le(#[trigger] r@[i], #[trigger] r@[j]),
        forall|i: int| 0 <= i < r@.len() ==> (#[trigger] r@[i]).files@.len() >= 1,
        forall|i: int, j: int|
            0 <= i < j < r@.len() ==> (#[trigger] r@[i]).sig != (#[trigger] r@[j]).sig,
{
    let ghost v0 = v@;
    let mut rest = v;
    let mut out: Vec<Collision> = Vec::new();
    proof {
        broadcast use vstd::seq_lib::group_to_multiset_ensures;

        assert(out@.to_multiset().add(rest@.to_multiset()) =~= v0.to_multiset());
    }
    while rest.len() > 0
        invariant
            out@.to_multiset().add(rest@.to_multiset()) == v0.to_multiset(),
            forall|i: int|
                0 <= i < rest@.len() ==> (#[trigger] rest@[i]).files@.len() >= 1,
            forall|i: int| 0 <= i < out@.len() ==> (#[trigger] out@[i]).files@.len() >= 1,
            forall|i: int, j: int|
                0 <= i <= j < out@.len() ==> report_le(#[trigger] out@[i], #[trigger] out@[j]),
            forall|i: int, j: int|
                0 <= i < j < out@.len() ==> (#[trigger] out@[i]).sig != (#[trigger] out@[j]).sig,
            forall|i: int, j: int|
                0 <= i < j < rest@.len() ==> (#[trigger] rest@[i]).sig != (#[trigger] rest@[j]).sig,
            forall|i: int, j: int|
                0 <= i < out@.len() && 0 <= j < rest@.len() ==> (#[trigger] out@[i]).sig != (
                #[trigger] rest@[j]).sig,
        decreases rest@.len(),
    {
        let ghost out_pre = out@;
        let ghost rest_pre = rest@;
        proof {
            broadcast use vstd::seq_lib::group_to_multiset_ensures;

            assert(rest@.to_multiset().contains(rest@[0]));
            assert(out@.to_multiset().insert(rest@[0]).add(rest@.to_multiset().remove(rest@[0]))
                =~= out@.to_multiset().add(rest@.to_multiset()));
        }
        let g = rest.remove(0);
        insert_report_sorted(&mut out, g);
        proof {
            assert forall|i: int, j: int|
                0 <= i < out@.len() && 0 <= j < rest@.len() implies (#[trigger] out@[i]).sig != (
            #[trigger] rest@[j]).sig by {
                assert(rest@[j] == rest_pre[j + 1]);
                if out@[i] == g {
                    assert(rest_pre[0].sig != rest_pre[j + 1].sig);
                } else {
                    assert(out_pre.contains(out@[i]));
                    let i0 = choose|i0: int| 0 <= i0 < out_pre.len() && out_pre[i0] == out@[i];
                    assert(out_pre[i0].sig != rest_pre[j + 1].sig);
                }
            }
        }
    }
    proof {
        broadcast use vstd::seq_lib::group_to_multiset_ensures;

        assert(out@.to_multiset().add(Multiset::empty()) =~= out@.to_multiset());
    }
    out
}

/// A permuted group list keeps, for every stored entry, a group drawn from
/// it unchanged.
proof fn lemma_raw_transfer(
    cm: Map<u64, (u32, Seq<(u32, u32)>)>,
    a: Seq<Collision>,
    b: Seq<Collision>,
)
    requires
        a.to_multiset() == b.to_multiset(),
        forall|k: u64|
            #[trigger] cm.contains_key(k) ==> exists|i: int|
                0 <= i < a.len() && raw_of(#[trigger] a[i], k, cm[k]),
    ensures
        forall|k: u64|
            #[trigger] cm.contains_key(k) ==> exists|i: int|
                0 <= i < b.len() && raw_of(#[trigger] b[i], k, cm[k]),
{
    assert forall|k: u64| #[trigger] cm.contains_key(k) implies exists|i: int|
        0 <= i < b.len() && raw_of(#[trigger] b[i], k, cm[k]) by {
        let j = choose|j: int| 0 <= j < a.len() && raw_of(#[trigger] a[j], k, cm[k]);
        assert(a.contains(a[j]));
        lemma_perm_contains(a, b, a[j]);
        let i = choose|i: int| 0 <= i < b.len() && b[i] == a[j];
        assert(raw_of(b[i], k, cm[k]));
    }
}

/// A permuted group list keeps every stored entry's class representative.
proof fn lemma_covered_transfer(
    cm: Map<u64, (u32, Seq<(u32, u32)>)>,
    a: Seq<Collision>,
    b: Seq<Collision>,
)
    requires
        a.to_multiset() == b.to_multiset(),
        forall|k: u64| #[trigger] cm.contains_key(k) ==> class_covered(cm[k], a),
    ensures
        forall|k: u64| #[trigger] cm.contains_key(k) ==> class_covered(cm[k], b),
{
    assert forall|k: u64| #[trigger] cm.contains_key(k) implies class_covered(cm[k], b) by {
        assert(class_covered(cm[k], a));
        let j = choose|j: int|
            0 <= j < a.len() && (#[trigger] a[j]).sig == spec_signature(
                spec_canonical(cm[k].1, cm[k].0),
                cm[k].0,
            ) && a[j].num_lines >= cm[k].0;
        assert(a.contains(a[j]));
        lemma_perm_contains(a, b, a[j]);
        let i = choose|i: int| 0 <= i < b.len() && b[i] == a[j];
        assert(0 <= i < b.len() && b[i].sig == spec_signature(
            spec_canonical(cm[k].1, cm[k].0),
            cm[k].0,
        ) && b[i].num_lines >= cm[k].0);
    }
}

/// Canonicalizing slot by slot keeps, for every stored entry, a group whose
/// signature is the entry's canonical signature and whose line count is the
/// entry's.
proof fn lemma_scrub_completeness(
    cm: Map<u64, (u32, Seq<(u32, u32)>)>,
    a: Seq<Collision>,
    b: Seq<Collision>,
)
    requires
        a.len() == b.len(),
        forall|i: int| 0 <= i < a.len() ==> scrub_result(#[trigger] b[i], a[i]),
        forall|k: u64|
            #[trigger] cm.contains_key(k) ==> exists|i: int|
                0 <= i < a.len() && raw_of(#[trigger] a[i], k, cm[k]),
    ensures
        forall|k: u64|
            #[trigger] cm.contains_key(k) ==> exists|i: int|
                0 <= i < b.len() && (#[trigger] b[i]).sig == spec_signature(
                    spec_canonical(cm[k].1, cm[k].0),
                    cm[k].0,
                ) && b[i].num_lines == cm[k].0,
{
    assert forall|k: u64| #[trigger] cm.contains_key(k) implies exists|i: int|
        0 <= i < b.len() && (#[trigger] b[i]).sig == spec_signature(
            spec_canonical(cm[k].1, cm[k].0),
            cm[k].0,
        ) && b[i].num_lines == cm[k].0 by {
        let i = choose|i: int| 0 <= i < a.len() && raw_of(#[trigger] a[i], k, cm[k]);
        assert(scrub_result(b[i], a[i]));
        assert(b[i].sig == spec_signature(spec_canonical(cm[k].1, cm[k].0), cm[k].0)
            && b[i].num_lines == cm[k].0);
    }
}

/// Keeping one group per signature keeps every stored entry's class.
proof fn lemma_dedup_completeness(
    cm: Map<u64, (u32, Seq<(u32, u32)>)>,
    a: Seq<Collision>,
    b: Seq<Collision>,
)
    requires
        forall|j: int| 0 <= j < a.len() ==> covered_by(#[trigger] a[j], b),
        forall|k: u64|
            #[trigger] cm.contains_key(k) ==> exists|i: int|
                0 <= i < a.len() && (#[trigger] a[i]).sig == spec_signature(
                    spec_canonical(cm[k].1, cm[k].0),
                    cm[k].0,
                ) && a[i].num_lines == cm[k].0,
    ensures
        forall|k: u64| #[trigger] cm.contains_key(k) ==> class_covered(cm[k], b),
{
    assert forall|k: u64| #[trigger] cm.contains_key(k) implies class_covered(cm[k], b) by {
        let j = choose|j: int|
            0 <= j < a.len() && (#[trigger] a[j]).sig == spec_signature(
                spec_canonical(cm[k].1, cm[k].0),
                cm[k].0,
            ) && a[j].num_lines == cm[k].0;
        assert(covered_by(a[j], b));
        let i = choose|i: int|
            0 <= i < b.len() && a[j].sig == (#[trigger] b[i]).sig && b[i].num_lines
                >= a[j].num_lines;
        assert(0 <= i < b.len() && b[i].sig == spec_signature(
            spec_canonical(cm[k].1, cm[k].0),
            cm[k].0,
        ) && b[i].num_lines >= cm[k].0);
    }
}

/// Order the aggregated groups for the final pass: canonicalize each group,
/// keep the first group seen for each distinct signature, and sort what is
/// left for presentation by ascending line count, ties broken by the first
/// occurrence.
#[verifier::rlimit(100)]
#[verifier::spinoff_prover]
pub fn process_report(results_hash: GroupIndex) -> (r: Vec<Collision>)
    requires
        forall|k: u64|
            #[trigger] results_contents(results_hash).contains_key(k) ==> results_contents(
                results_hash,
            )[k].1.len() >= 1,
    ensures
        forall|i: int|
            0 <= i < r@.len() ==> scrubbed_from(results_contents(results_hash), #[trigger] r@[i]),
        forall|i: int, j: int|
            0 <= i < j < r@.len() ==> (#[trigger] r@[i]).sig != (#[trigger] r@[j]).sig,
        forall|k: u64|
            #[trigger] results_contents(results_hash).contains_key(k) ==> class_covered(
                results_contents(results_hash)[k],
                r@,
            ),
        forall|i: int, j: int|
            0 <= i <= j < r@.len() ==> report_le(#[trigger] r@[i], #[trigger] r@[j]),
        forall|i: int| 0 <= i < r@.len() ==> (#[trigger] r@[i]).files@.len() >= 1,
{
    let ghost cm = results_contents(results_hash);
    let groups = results_into_groups(results_hash);
    proof {
        let ks = choose|ks: Seq<u64>|
            ks.no_duplicates() && ks.to_set() == cm.dom() && groups@.len() == ks.len() && forall|
                i: int,
            |
                0 <= i < ks.len() ==> (#[trigger] groups@[i]).key == ks[i] && groups@[i].num_lines
                    == cm[ks[i]].0 && groups@[i].files@ == cm[ks[i]].1 && groups@[i].sig == 0;
        assert forall|i: int| 0 <= i < groups@.len() implies raw_from(cm, #[trigger] groups@[i]) by {
            assert(ks.to_set().contains(ks[i]));
            assert(cm.contains_key(ks[i]));
            assert(raw_of(groups@[i], ks[i], cm[ks[i]]));
        }
        assert forall|k: u64| #[trigger] cm.contains_key(k) implies exists|i: int|
            0 <= i < groups@.len() && raw_of(#[trigger] groups@[i], k, cm[k]) by {
            assert(ks.to_set().contains(k));
            let i = choose|i: int| 0 <= i < ks.len() && ks[i] == k;
            assert(raw_of(groups@[i], k, cm[k]));
        }
    }
    let ghost groups0 = groups@;
    // descending line count first, so that the keeper of each signature is a
    // group with the most lines
    let sorted = sort_lines_desc(groups);
    proof {
        assert forall|i: int| 0 <= i < sorted@.len() implies raw_from(cm, #[trigger] sorted@[i])
            && sorted@[i].files@.len() >= 1 by {
            assert(sorted@.contains(sorted@[i]));
            lemma_perm_contains(sorted@, groups0, sorted@[i]);
            let j = choose|j: int| 0 <= j < groups0.len() && groups0[j] == sorted@[i];
            assert(raw_from(cm, groups0[j]));
            let k = choose|k: u64| #[trigger] cm.contains_key(k) && raw_of(groups0[j], k, cm[k]);
            assert(cm[k].1.len() >= 1);
        }
        lemma_raw_transfer(cm, groups0, sorted@);
    }
    let ghost sorted0 = sorted@;
    // canonicalize every group
    let scrubbed = scrub_all(sorted);
    proof {
        assert forall|i: int| 0 <= i < scrubbed@.len() implies scrubbed_from(
            cm,
            #[trigger] scrubbed@[i],
        ) by {
            assert(raw_from(cm, sorted0[i]));
            let k = choose|k: u64| #[trigger] cm.contains_key(k) && raw_of(sorted0[i], k, cm[k]);
            assert(scrub_result(scrubbed@[i], sorted0[i]));
            assert(is_scrubbed_of(scrubbed@[i], k, cm[k]));
        }
        assert forall|i: int, j: int| 0 <= i <= j < scrubbed@.len() implies (
        #[trigger] scrubbed@[i]).num_lines >= (#[trigger] scrubbed@[j]).num_lines by {
            assert(scrub_result(scrubbed@[i], sorted0[i]));
            assert(scrub_result(scrubbed@[j], sorted0[j]));
            assert(sorted0[i].num_lines >= sorted0[j].num_lines);
        }
        lemma_scrub_completeness(cm, sorted0, scrubbed@);
    }
    let ghost scrubbed0 = scrubbed@;
    // one group per distinct signature
    let printable = dedup_by_sig(scrubbed);
    proof {
        assert forall|i: int| 0 <= i < printable@.len() implies scrubbed_from(
            cm,
            #[trigger] printable@[i],
        ) by {
            assert(scrubbed0.contains(printable@[i]));
            let j = choose|j: int| 0 <= j < scrubbed0.len() && scrubbed0[j] == printable@[i];
            assert(scrubbed_from(cm, scrubbed0[j]));
        }
        lemma_dedup_completeness(cm, scrubbed0, printable@);
    }
    let ghost printable0 = printable@;
    // final presentation order
    let out = sort_report(printable);
    proof {
        assert forall|i: int| 0 <= i < out@.len() implies scrubbed_from(cm, #[trigger] out@[i]) by {
            assert(out@.contains(out@[i]));
            lemma_perm_contains(out@, printable0, out@[i]);
            let j = choose|j: int| 0 <= j < printable0.len() && printable0[j] == out@[i];
            assert(scrubbed_from(cm, printable0[j]));
        }
        lemma_covered_transfer(cm, printable0, out@);
    }
    out
}

/// Drawn unchanged from some entry of the result map.
pub open spec fn raw_from(m: Map<u64, (u32, Seq<(u32, u32)>)>, c: Collision) -> bool {
    exists|k: u64| #[trigger] m.contains_key(k) && raw_of(c, k, m[k])
}

/// The canonical form of some entry of the result map.
pub open spec fn scrubbed_from(m: Map<u64, (u32, Seq<(u32, u32)>)>, c: Collision) -> bool {
    exists|k: u64| #[trigger] m.contains_key(k) && is_scrubbed_of(c, k, m[k])
}

/// How many duplicated lines the non-ignored groups from position `i` on
/// account for: each group's length times its extra occurrences.
pub open spec fn spec_dup_lines_total(gs: Seq<Collision>, ign: Seq<u64>, i: int) -> int
    decreases gs.len() - i,
{
    if i < 0 || i >= gs.len() {
        0
    } else {
        (if ign.contains(gs[i].sig) {
            0
        } else {
            gs[i].num_lines * (gs[i].files@.len() - 1)
        }) + spec_dup_lines_total(gs, ign, i + 1)
    }
}

/// How many groups from position `i` on the ignore set suppresses.
pub open spec fn spec_ignored_total(gs: Seq<Collision>, ign: Seq<u64>, i: int) -> int
    decreases gs.len() - i,
{
    if i < 0 || i >= gs.len() {
        0
    } else {
        (if ign.contains(gs[i].sig) {
            1int
        } else {
            0int
        }) + spec_ignored_total(gs, ign, i + 1)
    }
}

proof fn lemma_totals_nonneg(gs: Seq<Collision>, ign: Seq<u64>, i: int)
    requires
        forall|t: int| 0 <= t < gs.len() ==> (#[trigger] gs[t]).files@.len() >= 1,
        0 <= i,
    ensures
        spec_dup_lines_total(gs, ign, i) >= 0,
        spec_ignored_total(gs, ign, i) >= 0,
    decreases gs.len() - i,
{
    if i < gs.len() {
        lemma_totals_nonneg(gs, ign, i + 1);
    }
}

/// The report's summary counts: the total of duplicated lines over the
/// groups the ignore set lets through, and how many groups it suppressed.
pub fn report_totals(printable_results: &Vec<Collision>, ignore_hashes: &Vec<u64>) -> (r: (
    u64,
    u64,
))
    requires
        forall|i: int|
            0 <= i < printable_results@.len() ==> (
            #[trigger] printable_results@[i]).files@.len() >= 1,
        spec_dup_lines_total(printable_results@, ignore_hashes@, 0) <= u64::MAX,
        printable_results@.len() <= u64::MAX,
    ensures
        r.0 == spec_dup_lines_total(printable_results@, ignore_hashes@, 0),
        r.1 == spec_ignored_total(printable_results@, ignore_hashes@, 0),
{
    let ghost gs = printable_results@;
    let ghost ign = ignore_hashes@;
    let mut num_lines: u64 = 0;
    let mut ignored: u64 = 0;
    let mut i: usize = 0;
    while i < printable_results.len()
        invariant
            printable_results@ == gs,
            ignore_hashes@ == ign,
            0 <= i <= gs.len(),
            gs.len() <= u64::MAX,
            forall|t: int| 0 <= t < gs.len() ==> (#[trigger] gs[t]).files@.len() >= 1,
            spec_dup_lines_total(gs, ign, 0) <= u64::MAX,
            spec_dup_lines_total(gs, ign, 0) == num_lines + spec_dup_lines_total(gs, ign, i as int),
            spec_ignored_total(gs, ign, 0) == ignored + spec_ignored_total(gs, ign, i as int),
            ignored <= i,
        decreases gs.len() - i,
    {
        proof {
            lemma_totals_nonneg(gs, ign, i + 1);
            lemma_totals_nonneg(gs, ign, i as int);
        }
        let g = &printable_results[i];
        if contains_u64(ignore_hashes, g.sig) {
            ignored = ignored + 1;
        } else {
            let extra: u64 = (g.files.len() - 1) as u64;
            let term: u64 = (g.num_lines as u64) * extra;
            num_lines = num_lines + term;
        }
        i += 1;
    }
    (num_lines, ignored)
}

} // verus!
