//! The run itself: per-file indexing, pairwise extension over every index
//! bucket, canonicalization, final dedup and ordering, and the report totals.

use vstd::prelude::*;
use crate::collision::Collision;
use crate::extend::{match_len, maximize_collision, spec_overlap, window};
use crate::hashing::sequence_hash;
use crate::index::{
    GroupIndex, WindowIndex, index_clear, index_contents, index_discard_singletons,
    index_into_buckets, index_new, results_clear, results_contents, results_fold, results_new,
    spec_bucket_append, spec_results_fold,
};
use crate::rolling::{rolling_hashes, spec_rolling_hashes};
use crate::signatures::{file_signatures, spec_file_signatures};
use rayon::prelude::ParallelIterator;
use rayon::prelude::IntoParallelRefIterator;

verus! {

/// The collision index after a file's window hashes, from position `i` on,
/// are inserted under that file's id.
pub open spec fn spec_register_rolling(
    m: Map<u64, Seq<(u32, u32)>>,
    entries: Seq<(u64, u32)>,
    fid: u32,
    i: int,
) -> Map<u64, Seq<(u32, u32)>>
    decreases entries.len() - i,
{
    if i < 0 || i >= entries.len() {
        m
    } else {
        spec_register_rolling(
            spec_bucket_append(m, entries[i].0, (fid, entries[i].1)),
            entries,
            fid,
            i + 1,
        )
    }
}

/// Every occurrence in the index names a file id below `bound`.
pub open spec fn index_occs_bounded(m: Map<u64, Seq<(u32, u32)>>, bound: int) -> bool {
    forall|k: u64, t: int|
        m.contains_key(k) && 0 <= t < m[k].len() ==> (#[trigger] m[k][t]).0 < bound
}

/// Registering a file below the bound keeps every occurrence below it.
proof fn lemma_register_bound(
    m: Map<u64, Seq<(u32, u32)>>,
    entries: Seq<(u64, u32)>,
    fid: u32,
    i: int,
    bound: int,
)
    requires
        index_occs_bounded(m, bound),
        fid < bound,
    ensures
        index_occs_bounded(spec_register_rolling(m, entries, fid, i), bound),
    decreases entries.len() - i,
{
    if 0 <= i < entries.len() {
        let m2 = spec_bucket_append(m, entries[i].0, (fid, entries[i].1));
        assert forall|k: u64, t: int| m2.contains_key(k) && 0 <= t < m2[k].len() implies (
        #[trigger] m2[k][t]).0 < bound by {
            if k == entries[i].0 {
                if m.contains_key(k) {
                    if t < m[k].len() {
                        assert(m[k][t].0 < bound);
                    }
                }
            }
        }
        lemma_register_bound(m2, entries, fid, i + 1, bound);
    }
}

/// Insert a file's window hashes into the collision index under its id.
fn register_rolling(collision_hashes: &mut WindowIndex, rh: &Vec<(u64, u32)>, fid: u32)
    ensures
        index_contents(*final(collision_hashes)) == spec_register_rolling(
            index_contents(*old(collision_hashes)),
            rh@,
            fid,
            0,
        ),
{
    let ghost entries = rh@;
    let ghost m0 = index_contents(*collision_hashes);
    let mut i: usize = 0;
    while i < rh.len()
        invariant
            rh@ == entries,
            0 <= i <= entries.len(),
            spec_register_rolling(m0, entries, fid, 0) == spec_register_rolling(
                index_contents(*collision_hashes),
                entries,
                fid,
                i as int,
            ),
        decreases entries.len() - i,
    {
        let e = rh[i];
        crate::index::index_append(collision_hashes, e.0, (fid, e.1));
        i += 1;
    }
}

/// For one file: compute its line signatures, slide the rolling window over
/// them, store the signatures in the file's slot and register every window
/// hash in the shared collision index.
pub fn process_file(
    fid: u32,
    content: &[u8],
    min_lines: usize,
    file_hashes: &mut Vec<Vec<u64>>,
    collision_hashes: &mut WindowIndex,
)
    requires
        1 <= min_lines,
        content@.len() < u32::MAX,
        fid as int == old(file_hashes)@.len(),
    ensures
        final(file_hashes)@.len() == old(file_hashes)@.len() + 1,
        forall|t: int|
            0 <= t < old(file_hashes)@.len() ==> final(file_hashes)@[t] == old(file_hashes)@[t],
        final(file_hashes)@[fid as int]@ == spec_file_signatures(content@),
        index_contents(*final(collision_hashes)) == spec_register_rolling(
            index_contents(*old(collision_hashes)),
            spec_rolling_hashes(spec_file_signatures(content@), min_lines as int),
            fid,
            0,
        ),
{
    let sigs = file_signatures(content);
    proof {
        crate::signatures::lemma_lines_count(content@, 0, Seq::empty());
    }
    let rh = rolling_hashes(sigs.as_slice(), min_lines);
    file_hashes.push(sigs);
    register_rolling(collision_hashes, &rh, fid);
}

/// The signature sequences of every file, computed in parallel.  Relies on
/// rayon's `par_iter`/`map`/`collect`: the generator runs on every file, in
/// any schedule, and the results come back in input order.
#[verifier::external_body]
pub fn par_file_signatures(contents: &Vec<Vec<u8>>) -> (r: Vec<Vec<u64>>)
    ensures
        r@.len() == contents@.len(),
        forall|i: int|
            0 <= i < contents@.len() ==> (#[trigger] r@[i])@ == spec_file_signatures(
                contents@[i]@,
            ),
{
    contents.par_iter().map(|c| file_signatures(c.as_slice())).collect()
}

/// The views of the per-file signature vectors.
pub open spec fn views_of(fh: Seq<Vec<u64>>) -> Seq<Seq<u64>> {
    fh.map_values(|v: Vec<u64>| v@)
}

/// One candidate pair folded into the result map: nothing when the pair is
/// vetoed as a self-overlap, otherwise the maximal extension under its
/// content key.
pub open spec fn spec_fold_pair(
    m: Map<u64, (u32, Seq<(u32, u32)>)>,
    fh: Seq<Seq<u64>>,
    l: (u32, u32),
    r: (u32, u32),
    min: u32,
) -> Map<u64, (u32, Seq<(u32, u32)>)> {
    let lseq = fh[l.0 as int];
    let rseq = fh[r.0 as int];
    let k = match_len(lseq, rseq, l.1 as int, r.1 as int);
    if spec_overlap(l, r, min) || spec_overlap(l, r, k as u32) {
        m
    } else {
        spec_results_fold(
            m,
            sequence_hash(window(lseq, l.1 as int, k)),
            k as u32,
            seq![l, r],
        )
    }
}

/// The pairs `(li, ri)`, `(li, ri + 1)`, ... of one bucket folded in.
pub open spec fn walk_inner(
    m: Map<u64, (u32, Seq<(u32, u32)>)>,
    c: Seq<(u32, u32)>,
    fh: Seq<Seq<u64>>,
    min: u32,
    li: int,
    ri: int,
) -> Map<u64, (u32, Seq<(u32, u32)>)>
    decreases c.len() - ri,
{
    if ri < 0 || ri >= c.len() {
        m
    } else {
        walk_inner(spec_fold_pair(m, fh, c[li], c[ri], min), c, fh, min, li, ri + 1)
    }
}

/// All pair combinations of one bucket, from left index `li` on, folded in.
pub open spec fn walk_outer(
    m: Map<u64, (u32, Seq<(u32, u32)>)>,
    c: Seq<(u32, u32)>,
    fh: Seq<Seq<u64>>,
    min: u32,
    li: int,
) -> Map<u64, (u32, Seq<(u32, u32)>)>
    decreases c.len() - li,
{
    if li < 0 || li >= c.len() - 1 {
        m
    } else {
        walk_outer(walk_inner(m, c, fh, min, li, li), c, fh, min, li + 1)
    }
}

/// What walking one bucket does to the result map.
pub open spec fn spec_walk(
    m: Map<u64, (u32, Seq<(u32, u32)>)>,
    c: Seq<(u32, u32)>,
    fh: Seq<Seq<u64>>,
    min: u32,
) -> Map<u64, (u32, Seq<(u32, u32)>)> {
    walk_outer(m, c, fh, min, 0)
}

/// Walk all pair combinations of one bucket of occurrences that share a
/// window hash, extending each through the match extender and folding every
/// confirmed match into the shared result map.
pub fn walk_collision(
    collisions: &[(u32, u32)],
    file_hashes: &Vec<Vec<u64>>,
    min_lines: u32,
    results_hash: &mut GroupIndex,
)
    requires
        collisions@.len() >= 1,
        forall|t: int|
            0 <= t < collisions@.len() ==> (#[trigger] collisions@[t]).0 < file_hashes@.len(),
        forall|f: int|
            0 <= f < file_hashes@.len() ==> (#[trigger] file_hashes@[f])@.len() <= u32::MAX,
    ensures
        results_contents(*final(results_hash)) == spec_walk(
            results_contents(*old(results_hash)),
            collisions@,
            views_of(file_hashes@),
            min_lines,
        ),
{
    let ghost c = collisions@;
    let ghost fh = views_of(file_hashes@);
    let ghost m0 = results_contents(*results_hash);
    let mut l_idx: usize = 0;
    while l_idx < collisions.len() - 1
        invariant
            collisions@ == c,
            c.len() >= 1,
            0 <= l_idx <= c.len() - 1,
            fh == views_of(file_hashes@),
            forall|t: int| 0 <= t < c.len() ==> (#[trigger] c[t]).0 < file_hashes@.len(),
            forall|f: int|
                0 <= f < file_hashes@.len() ==> (#[trigger] file_hashes@[f])@.len() <= u32::MAX,
            spec_walk(m0, c, fh, min_lines) == walk_outer(
                results_contents(*results_hash),
                c,
                fh,
                min_lines,
                l_idx as int,
            ),
        decreases c.len() - l_idx,
    {
        let ghost m_outer = results_contents(*results_hash);
        let mut r_idx: usize = l_idx;
        while r_idx < collisions.len()
            invariant
                collisions@ == c,
                c.len() >= 1,
                0 <= l_idx < c.len() - 1,
                l_idx <= r_idx <= c.len(),
                fh == views_of(file_hashes@),
                forall|t: int| 0 <= t < c.len() ==> (#[trigger] c[t]).0 < file_hashes@.len(),
                forall|f: int|
                    0 <= f < file_hashes@.len() ==> (#[trigger] file_hashes@[f])@.len()
                        <= u32::MAX,
                walk_inner(m_outer, c, fh, min_lines, l_idx as int, l_idx as int) == walk_inner(
                    results_contents(*results_hash),
                    c,
                    fh,
                    min_lines,
                    l_idx as int,
                    r_idx as int,
                ),
            decreases c.len() - r_idx,
        {
            let l_info = collisions[l_idx];
            let r_info = collisions[r_idx];
            proof {
                assert(fh[l_info.0 as int] == file_hashes@[l_info.0 as int]@);
                assert(fh[r_info.0 as int] == file_hashes@[r_info.0 as int]@);
            }
            match maximize_collision(file_hashes, l_info, r_info, min_lines) {
                Some(coll) => {
                    results_fold(results_hash, coll.key, coll.num_lines, coll.files);
                },
                None => {},
            }
            r_idx += 1;
        }
        l_idx += 1;
    }
}

/// An empty result map.
pub open spec fn empty_results() -> Map<u64, (u32, Seq<(u32, u32)>)> {
    Map::empty()
}

/// `ks` lists, without repetition, exactly the keys of `m0` whose bucket
/// holds more than one occurrence — the buckets that survive the shrink.
pub open spec fn retained_keys_ok(ks: Seq<u64>, m0: Map<u64, Seq<(u32, u32)>>) -> bool {
    ks.no_duplicates() && forall|k: u64|
        ks.to_set().contains(k) <==> (#[trigger] m0.contains_key(k) && m0[k].len() > 1)
}

/// The buckets stored under the listed keys, in list order.
pub open spec fn buckets_of(ks: Seq<u64>, m0: Map<u64, Seq<(u32, u32)>>) -> Seq<Seq<(u32, u32)>> {
    Seq::new(ks.len(), |i: int| m0[ks[i]])
}

/// The result map after walking the buckets from position `i` on.
pub open spec fn walk_buckets(
    m: Map<u64, (u32, Seq<(u32, u32)>)>,
    bs: Seq<Seq<(u32, u32)>>,
    fh: Seq<Seq<u64>>,
    min: u32,
    i: int,
) -> Map<u64, (u32, Seq<(u32, u32)>)>
    decreases bs.len() - i,
{
    if i < 0 || i >= bs.len() {
        m
    } else {
        walk_buckets(spec_walk(m, bs[i], fh, min), bs, fh, min, i + 1)
    }
}

/// Every group in the map after a walk still holds at least two occurrences,
/// an even number of them, when it did before.
pub open spec fn results_wf(m: Map<u64, (u32, Seq<(u32, u32)>)>) -> bool {
    forall|k: u64|
        #[trigger] m.contains_key(k) ==> m[k].1.len() >= 2 && m[k].1.len() % 2 == 0
}

proof fn lemma_fold_pair_wf(
    m: Map<u64, (u32, Seq<(u32, u32)>)>,
    fh: Seq<Seq<u64>>,
    l: (u32, u32),
    r: (u32, u32),
    min: u32,
)
    requires
        results_wf(m),
    ensures
        results_wf(spec_fold_pair(m, fh, l, r, min)),
{
}

proof fn lemma_walk_inner_wf(
    m: Map<u64, (u32, Seq<(u32, u32)>)>,
    c: Seq<(u32, u32)>,
    fh: Seq<Seq<u64>>,
    min: u32,
    li: int,
    ri: int,
)
    requires
        results_wf(m),
    ensures
        results_wf(walk_inner(m, c, fh, min, li, ri)),
    decreases c.len() - ri,
{
    if 0 <= ri < c.len() {
        lemma_fold_pair_wf(m, fh, c[li], c[ri], min);
        lemma_walk_inner_wf(spec_fold_pair(m, fh, c[li], c[ri], min), c, fh, min, li, ri + 1);
    }
}

proof fn lemma_walk_outer_wf(
    m: Map<u64, (u32, Seq<(u32, u32)>)>,
    c: Seq<(u32, u32)>,
    fh: Seq<Seq<u64>>,
    min: u32,
    li: int,
)
    requires
        results_wf(m),
    ensures
        results_wf(walk_outer(m, c, fh, min, li)),
    decreases c.len() - li,
{
    if 0 <= li < c.len() - 1 {
        lemma_walk_inner_wf(m, c, fh, min, li, li);
        lemma_walk_outer_wf(walk_inner(m, c, fh, min, li, li), c, fh, min, li + 1);
    }
}

/// Every occurrence in the result map names a file id below `bound`.
pub open spec fn results_occs_bounded(m: Map<u64, (u32, Seq<(u32, u32)>)>, bound: int) -> bool {
    forall|k: u64, t: int|
        m.contains_key(k) && 0 <= t < m[k].1.len() ==> (#[trigger] m[k].1[t]).0 < bound
}

proof fn lemma_fold_pair_bound(
    m: Map<u64, (u32, Seq<(u32, u32)>)>,
    fh: Seq<Seq<u64>>,
    l: (u32, u32),
    r: (u32, u32),
    min: u32,
    bound: int,
)
    requires
        results_occs_bounded(m, bound),
        l.0 < bound,
        r.0 < bound,
    ensures
        results_occs_bounded(spec_fold_pair(m, fh, l, r, min), bound),
{
    let m2 = spec_fold_pair(m, fh, l, r, min);
    assert forall|k: u64, t: int| m2.contains_key(k) && 0 <= t < m2[k].1.len() implies (
    #[trigger] m2[k].1[t]).0 < bound by {
        if m.contains_key(k) && t < m[k].1.len() {
            assert(m[k].1[t].0 < bound);
        }
    }
}

proof fn lemma_walk_inner_bound(
    m: Map<u64, (u32, Seq<(u32, u32)>)>,
    c: Seq<(u32, u32)>,
    fh: Seq<Seq<u64>>,
    min: u32,
    li: int,
    ri: int,
    bound: int,
)
    requires
        results_occs_bounded(m, bound),
        forall|t: int| 0 <= t < c.len() ==> (#[trigger] c[t]).0 < bound,
        0 <= li < c.len(),
    ensures
        results_occs_bounded(walk_inner(m, c, fh, min, li, ri), bound),
    decreases c.len() - ri,
{
    if 0 <= ri < c.len() {
        lemma_fold_pair_bound(m, fh, c[li], c[ri], min, bound);
        lemma_walk_inner_bound(
            spec_fold_pair(m, fh, c[li], c[ri], min),
            c,
            fh,
            min,
            li,
            ri + 1,
            bound,
        );
    }
}

proof fn lemma_walk_outer_bound(
    m: Map<u64, (u32, Seq<(u32, u32)>)>,
    c: Seq<(u32, u32)>,
    fh: Seq<Seq<u64>>,
    min: u32,
    li: int,
    bound: int,
)
    requires
        results_occs_bounded(m, bound),
        forall|t: int| 0 <= t < c.len() ==> (#[trigger] c[t]).0 < bound,
    ensures
        results_occs_bounded(walk_outer(m, c, fh, min, li), bound),
    decreases c.len() - li,
{
    if 0 <= li < c.len() - 1 {
        lemma_walk_inner_bound(m, c, fh, min, li, li, bound);
        lemma_walk_outer_bound(walk_inner(m, c, fh, min, li, li), c, fh, min, li + 1, bound);
    }
}

/// Discard the buckets that a single file hit alone, then walk every
/// surviving bucket's pair combinations and aggregate the confirmed matches
/// into a result map keyed by content.  The result is exactly the fold of
/// `spec_walk` over the retained buckets, in some order of their keys.
pub fn find_collisions(
    collision_hash: WindowIndex,
    file_hashes: &Vec<Vec<u64>>,
    min_lines: u32,
) -> (r: GroupIndex)
    requires
        index_occs_bounded(index_contents(collision_hash), file_hashes@.len() as int),
        forall|f: int|
            0 <= f < file_hashes@.len() ==> (#[trigger] file_hashes@[f])@.len() <= u32::MAX,
    ensures
        results_wf(results_contents(r)),
        results_occs_bounded(results_contents(r), file_hashes@.len() as int),
        exists|ks: Seq<u64>|
            retained_keys_ok(ks, index_contents(collision_hash)) && results_contents(r)
                == walk_buckets(
                empty_results(),
                buckets_of(ks, index_contents(collision_hash)),
                views_of(file_hashes@),
                min_lines,
                0,
            ),
{
    let mut ch = collision_hash;
    let ghost pre = index_contents(ch);
    index_discard_singletons(&mut ch);
    let ghost shrunk = index_contents(ch);
    let collision_vec = index_into_buckets(ch);
    let ghost ks = choose|ks: Seq<u64>|
        ks.no_duplicates() && ks.to_set() == shrunk.dom() && collision_vec@.len() == ks.len()
            && forall|i: int|
            0 <= i < ks.len() ==> (#[trigger] collision_vec@[i])@ == shrunk[ks[i]];
    let ghost bs = buckets_of(ks, pre);
    let ghost fh = views_of(file_hashes@);
    proof {
        assert forall|k: u64|
            ks.to_set().contains(k) <==> (#[trigger] pre.contains_key(k) && pre[k].len() > 1) by {
            if ks.to_set().contains(k) {
                assert(shrunk.contains_key(k));
            }
            if pre.contains_key(k) && pre[k].len() > 1 {
                assert(shrunk.contains_key(k));
                assert(shrunk.dom().contains(k));
            }
        }
        assert(retained_keys_ok(ks, pre));
        assert forall|i: int| 0 <= i < collision_vec@.len() implies (
        #[trigger] collision_vec@[i])@.len() >= 2 && collision_vec@[i]@ == bs[i] && (forall|t: int|
            0 <= t < collision_vec@[i]@.len() ==> collision_vec@[i]@[t].0
                < file_hashes@.len()) by {
            assert(ks.to_set().contains(ks[i]));
            assert(shrunk.contains_key(ks[i]));
            assert(pre.contains_key(ks[i]) && pre[ks[i]].len() > 1);
            assert(shrunk[ks[i]] == pre[ks[i]]);
            assert(collision_vec@[i]@ == pre[ks[i]]);
            assert(bs[i] == pre[ks[i]]);
            assert forall|t: int| 0 <= t < collision_vec@[i]@.len() implies collision_vec@[i]@[t].0
                < file_hashes@.len() by {
                assert(pre[ks[i]][t].0 < file_hashes@.len());
            }
        }
    }
    let mut results = results_new();
    results_clear(&mut results);
    proof {
        assert(results_contents(results) =~= empty_results());
    }
    let mut i: usize = 0;
    while i < collision_vec.len()
        invariant
            bs.len() == collision_vec@.len(),
            fh == views_of(file_hashes@),
            forall|b: int|
                0 <= b < collision_vec@.len() ==> (#[trigger] collision_vec@[b])@.len() >= 2,
            forall|b: int| 0 <= b < collision_vec@.len() ==> (#[trigger] collision_vec@[b])@ == bs[b],
            forall|b: int|
                0 <= b < collision_vec@.len() ==> (forall|t: int|
                    0 <= t < (#[trigger] collision_vec@[b])@.len() ==> collision_vec@[b]@[t].0
                        < file_hashes@.len()),
            forall|f: int|
                0 <= f < file_hashes@.len() ==> (#[trigger] file_hashes@[f])@.len() <= u32::MAX,
            0 <= i <= collision_vec@.len(),
            results_wf(results_contents(results)),
            results_occs_bounded(results_contents(results), file_hashes@.len() as int),
            walk_buckets(empty_results(), bs, fh, min_lines, 0) == walk_buckets(
                results_contents(results),
                bs,
                fh,
                min_lines,
                i as int,
            ),
        decreases collision_vec@.len() - i,
    {
        let ghost m_before = results_contents(results);
        walk_collision(
            collision_vec[i].as_slice(),
            file_hashes,
            min_lines,
            &mut results,
        );
        proof {
            lemma_walk_outer_wf(m_before, collision_vec@[i as int]@, fh, min_lines, 0);
            lemma_walk_outer_bound(
                m_before,
                collision_vec@[i as int]@,
                fh,
                min_lines,
                0,
                file_hashes@.len() as int,
            );
            assert(results_contents(results) == spec_walk(m_before, bs[i as int], fh, min_lines));
        }
        i += 1;
    }
    proof {
        assert(walk_buckets(results_contents(results), bs, fh, min_lines, bs.len() as int)
            == results_contents(results));
        assert(results_contents(results) == walk_buckets(empty_results(), bs, fh, min_lines, 0));
        assert(retained_keys_ok(ks, pre) && results_contents(results) == walk_buckets(
            empty_results(),
            buckets_of(ks, pre),
            views_of(file_hashes@),
            min_lines,
            0,
        ));
    }
    results
}

/// Run the whole detection over in-memory file contents, file id equal to
/// position: signatures in parallel, the rolling index, pairwise extension
/// over every bucket, canonicalization, one group per signature, and the
/// final presentation order.
pub fn find_duplicates(contents: &Vec<Vec<u8>>, min_lines: u32) -> (r: Vec<Collision>)
    requires
        1 <= min_lines,
        contents@.len() <= u32::MAX,
        forall|i: int| 0 <= i < contents@.len() ==> (#[trigger] contents@[i])@.len() < u32::MAX,
    ensures
        forall|i: int, j: int|
            0 <= i < j < r@.len() ==> (#[trigger] r@[i]).sig != (#[trigger] r@[j]).sig,
        forall|i: int, j: int|
            0 <= i <= j < r@.len() ==> crate::report::report_le(
                #[trigger] r@[i],
                #[trigger] r@[j],
            ),
        forall|i: int| 0 <= i < r@.len() ==> (#[trigger] r@[i]).files@.len() >= 1,
{
    let file_hashes = par_file_signatures(contents);
    proof {
        assert forall|i: int| 0 <= i < file_hashes@.len() implies (
        #[trigger] file_hashes@[i])@.len() <= u32::MAX by {
            crate::signatures::lemma_lines_count(contents@[i]@, 0, Seq::empty());
        }
    }
    let mut index = index_new();
    index_clear(&mut index);
    let mut fid: usize = 0;
    while fid < file_hashes.len()
        invariant
            min_lines >= 1,
            file_hashes@.len() == contents@.len(),
            contents@.len() <= u32::MAX,
            forall|i: int|
                0 <= i < file_hashes@.len() ==> (#[trigger] file_hashes@[i])@.len() <= u32::MAX,
            0 <= fid <= file_hashes@.len(),
            index_occs_bounded(index_contents(index), file_hashes@.len() as int),
        decreases file_hashes@.len() - fid,
    {
        let ghost m_pre = index_contents(index);
        let fh = &file_hashes[fid];
        let rh = rolling_hashes(fh.as_slice(), min_lines as usize);
        register_rolling(&mut index, &rh, fid as u32);
        proof {
            lemma_register_bound(m_pre, rh@, fid as u32, 0, file_hashes@.len() as int);
        }
        fid += 1;
    }
    let results = find_collisions(index, &file_hashes, min_lines);
    crate::report::process_report(results)
}

} // verus!
