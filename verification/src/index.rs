//! The concurrent collision index and the concurrent result map, both backed
//! by `dashmap::DashMap`.  The maps are opaque to verification; what each
//! operation does to their contents is stated over named contents views.

use vstd::prelude::*;
use crate::collision::Collision;

verus! {

/// The collision index's backing map.
pub type WindowIndex = dashmap::DashMap<u64, Vec<(u32, u32)>>;

/// The result map's backing map.
pub type GroupIndex = dashmap::DashMap<u64, (u32, Vec<(u32, u32)>)>;

#[verifier::external_type_specification]
#[verifier::external_body]
#[verifier::reject_recursive_types(K)]
#[verifier::reject_recursive_types(V)]
#[verifier::reject_recursive_types(S)]
pub struct ExDashMap<K, V, S>(dashmap::DashMap<K, V, S>);

/// What the collision index holds: for each window hash, the occurrences
/// inserted under it, in insertion order.
pub uninterp spec fn index_contents(
    m: dashmap::DashMap<u64, Vec<(u32, u32)>>,
) -> Map<u64, Seq<(u32, u32)>>;

/// What the result map holds: for each content key, the extended line count
/// and the occurrences folded in so far.
pub uninterp spec fn results_contents(
    m: dashmap::DashMap<u64, (u32, Vec<(u32, u32)>)>,
) -> Map<u64, (u32, Seq<(u32, u32)>)>;

/// A bucket gains one occurrence, or comes into being with it.
pub open spec fn spec_bucket_append(
    m: Map<u64, Seq<(u32, u32)>>,
    h: u64,
    occ: (u32, u32),
) -> Map<u64, Seq<(u32, u32)>> {
    if m.contains_key(h) {
        m.insert(h, m[h].push(occ))
    } else {
        m.insert(h, seq![occ])
    }
}

/// A result entry gains the new occurrences, or comes into being; the line
/// count of the first arrival is kept.
pub open spec fn spec_results_fold(
    m: Map<u64, (u32, Seq<(u32, u32)>)>,
    key: u64,
    n: u32,
    files: Seq<(u32, u32)>,
) -> Map<u64, (u32, Seq<(u32, u32)>)> {
    if m.contains_key(key) {
        m.insert(key, (m[key].0, m[key].1 + files))
    } else {
        m.insert(key, (n, files))
    }
}

/// Whether a bucket is worth keeping after all files are in.
fn keeps_bucket(v: &Vec<(u32, u32)>) -> (r: bool)
    ensures
        r == (v@.len() > 1),
{
    v.len() > 1
}

/// Relies on `DashMap::new`; nothing is assumed of the fresh map here, it
/// is emptied by `index_clear` before use.
#[verifier::external_body]
pub fn index_new() -> WindowIndex {
    dashmap::DashMap::new()
}

/// Relies on `DashMap::clear`: afterwards the map holds nothing.
#[verifier::external_body]
pub fn index_clear(m: &mut WindowIndex)
    ensures
        forall|k: u64| !index_contents(*final(m)).contains_key(k),
{
    m.clear();
}

/// Relies on dashmap's `entry`/`or_default` and `Vec::push`: the occurrence
/// is appended to the bucket of `h`, which is created empty first when
/// absent.  Concurrent writers are serialized per shard.
#[verifier::external_body]
pub fn index_append(m: &mut dashmap::DashMap<u64, Vec<(u32, u32)>>, h: u64, occ: (u32, u32))
    ensures
        index_contents(*final(m)) == spec_bucket_append(index_contents(*old(m)), h, occ),
{
    m.entry(h).or_default().push(occ);
}

/// Relies on `DashMap::retain`: exactly the buckets holding more than one
/// occurrence survive, unchanged.
#[verifier::external_body]
pub fn index_discard_singletons(m: &mut dashmap::DashMap<u64, Vec<(u32, u32)>>)
    ensures
        forall|k: u64|
            index_contents(*final(m)).contains_key(k) <==> (index_contents(
                *old(m),
            ).contains_key(k) && index_contents(*old(m))[k].len() > 1),
        forall|k: u64|
            index_contents(*final(m)).contains_key(k) ==> index_contents(*final(m))[k]
                == index_contents(*old(m))[k],
{
    m.retain(|_h, v| keeps_bucket(v));
}

/// Relies on `DashMap`'s owning iterator: every bucket comes out exactly
/// once, in no particular order.
#[verifier::external_body]
pub fn index_into_buckets(m: dashmap::DashMap<u64, Vec<(u32, u32)>>) -> (r: Vec<Vec<(u32, u32)>>)
    ensures
        exists|ks: Seq<u64>|
            ks.no_duplicates() && ks.to_set() == index_contents(m).dom() && r@.len() == ks.len()
                && forall|i: int|
                0 <= i < ks.len() ==> (#[trigger] r@[i])@ == index_contents(m)[ks[i]],
{
    m.into_iter().map(|e| e.1).collect()
}

/// Relies on `DashMap::new`; nothing is assumed of the fresh map here, it
/// is emptied by `results_clear` before use.
#[verifier::external_body]
pub fn results_new() -> GroupIndex {
    dashmap::DashMap::new()
}

/// Relies on `DashMap::clear`: afterwards the map holds nothing.
#[verifier::external_body]
pub fn results_clear(m: &mut GroupIndex)
    ensures
        forall|k: u64| !results_contents(*final(m)).contains_key(k),
{
    m.clear();
}

/// Relies on dashmap's `get_mut`/`insert` and `Vec::append`: an existing
/// entry for `key` keeps its line count and gains the new occurrences; an
/// absent one is created.  Only the touched key's shard is locked.
#[verifier::external_body]
pub fn results_fold(
    m: &mut dashmap::DashMap<u64, (u32, Vec<(u32, u32)>)>,
    key: u64,
    num_lines: u32,
    files: Vec<(u32, u32)>,
)
    ensures
        results_contents(*final(m)) == spec_results_fold(
            results_contents(*old(m)),
            key,
            num_lines,
            files@,
        ),
{
    let mut files = files;
    match m.get_mut(&key) {
        Some(mut existing) => existing.1.append(&mut files),
        None => {
            m.insert(key, (num_lines, files));
        },
    }
}

/// Relies on `DashMap`'s owning iterator: every entry comes out exactly
/// once, in no particular order, as a bare group with no signature yet.
#[verifier::external_body]
pub fn results_into_groups(m: dashmap::DashMap<u64, (u32, Vec<(u32, u32)>)>) -> (r: Vec<Collision>)
    ensures
        exists|ks: Seq<u64>|
            ks.no_duplicates() && ks.to_set() == results_contents(m).dom() && r@.len() == ks.len()
                && forall|i: int|
                0 <= i < ks.len() ==> (#[trigger] r@[i]).key == ks[i] && r@[i].num_lines
                    == results_contents(m)[ks[i]].0 && r@[i].files@ == results_contents(m)[ks[i]].1
                    && r@[i].sig == 0,
{
    m.into_iter().map(|e| Collision { key: e.0, num_lines: e.1.0, files: e.1.1, sig: 0 }).collect()
}

} // verus!
