//! The rolling window indexer: slides a `min_lines`-sized window over a
//! file's line signatures and hashes each window.

use vstd::prelude::*;
use crate::hashing::{hash_u64s, sequence_hash};

verus! {

/// The hash of the window of `min` signatures starting at offset `i`.
pub open spec fn spec_window_hash(sigs: Seq<u64>, min: int, i: int) -> u64 {
    sequence_hash(sigs.subrange(i, i + min))
}

/// The window hashes emitted from offset `i` on, where `prev` is the last
/// hash computed before `i` (if any).  A hash equal to the immediately
/// preceding one is suppressed: long runs of identical lines would otherwise
/// flood the index with the same window.
pub open spec fn rolling_rec(sigs: Seq<u64>, min: int, i: int, prev: Option<u64>) -> Seq<
    (u64, u32),
>
    decreases sigs.len() - min - i,
{
    if i < 0 || i >= sigs.len() - min {
        Seq::empty()
    } else {
        let d = spec_window_hash(sigs, min, i);
        let rest = rolling_rec(sigs, min, i + 1, Some(d));
        if prev == Some(d) {
            rest
        } else {
            seq![(d, i as u32)] + rest
        }
    }
}

/// All emitted (window hash, start offset) pairs of a file.  Empty whenever
/// the file holds no more than `min` lines.
pub open spec fn spec_rolling_hashes(sigs: Seq<u64>, min: int) -> Seq<(u64, u32)> {
    rolling_rec(sigs, min, 0, None)
}

/// For one file, hash every `min_lines`-sized window of line signatures,
/// keeping offset order and dropping a hash that repeats the one computed
/// just before it.
pub fn rolling_hashes(file_signatures: &[u64], min_lines: usize) -> (r: Vec<(u64, u32)>)
    requires
        1 <= min_lines,
        file_signatures@.len() <= u32::MAX,
    ensures
        r@ == spec_rolling_hashes(file_signatures@, min_lines as int),
{
    let ghost sigs = file_signatures@;
    let ghost min = min_lines as int;
    let mut rc: Vec<(u64, u32)> = Vec::new();
    if file_signatures.len() > min_lines {
        let num_lines = file_signatures.len() - min_lines;
        let mut prev: Option<u64> = None;
        let mut i: usize = 0;
        while i < num_lines
            invariant
                file_signatures@ == sigs,
                min == min_lines as int,
                1 <= min,
                num_lines == sigs.len() - min,
                sigs.len() <= u32::MAX,
                0 <= i <= num_lines,
                spec_rolling_hashes(sigs, min) == rc@ + rolling_rec(sigs, min, i as int, prev),
            decreases num_lines - i,
        {
            let w = vstd::slice::slice_subrange(file_signatures, i, i + min_lines);
            let digest = hash_u64s(w);
            proof {
                assert(w@ == sigs.subrange(i as int, i + min));
            }
            let emit = match prev {
                Some(p) => p != digest,
                None => true,
            };
            if emit {
                proof {
                    assert(rc@ + (seq![(digest, i as u32)] + rolling_rec(
                        sigs,
                        min,
                        i + 1,
                        Some(digest),
                    )) =~= rc@.push((digest, i as u32)) + rolling_rec(sigs, min, i + 1, Some(digest)));
                }
                rc.push((digest, i as u32));
            }
            prev = Some(digest);
            i += 1;
        }
        proof {
            assert(rolling_rec(sigs, min, sigs.len() - min, prev) == Seq::<(u64, u32)>::empty());
            assert(rc@ + Seq::<(u64, u32)>::empty() =~= rc@);
        }
    } else {
        proof {
            assert(spec_rolling_hashes(sigs, min) == Seq::<(u64, u32)>::empty());
        }
    }
    rc
}

} // verus!
