//! The line signature generator: file content in, one 64-bit signature per
//! line out.

use vstd::prelude::*;
use crate::hashing::{line_signature, spec_line_sig};

verus! {

/// The lines of `b` from position `i` on, with `cur` the part of the current
/// line read so far.  Lines are separated by line-feed bytes; a final segment
/// is a line only if it is non-empty.
pub open spec fn lines_rec(b: Seq<u8>, i: int, cur: Seq<u8>) -> Seq<Seq<u8>>
    decreases b.len() - i,
{
    if i < 0 || i >= b.len() {
        if cur.len() == 0 {
            Seq::empty()
        } else {
            seq![cur]
        }
    } else if b[i] == 10u8 {
        seq![cur] + lines_rec(b, i + 1, Seq::empty())
    } else {
        lines_rec(b, i + 1, cur.push(b[i]))
    }
}

/// The lines of a file's content, split on line-feed bytes.
pub open spec fn spec_lines(b: Seq<u8>) -> Seq<Seq<u8>> {
    lines_rec(b, 0, Seq::empty())
}

/// The signature sequence of a file: one `spec_line_sig` per line.
pub open spec fn spec_file_signatures(b: Seq<u8>) -> Seq<u64> {
    spec_lines(b).map_values(|l: Seq<u8>| spec_line_sig(l))
}

/// Walk a file's content line by line, trimming leading and trailing
/// whitespace and hashing what is left; the result holds one signature per
/// line.  A byte-identical content always yields the same sequence.
pub fn file_signatures(content: &[u8]) -> (r: Vec<u64>)
    ensures
        r@ == spec_file_signatures(content@),
{
    let ghost b = content@;
    let mut rc: Vec<u64> = Vec::new();
    let mut cur: Vec<u8> = Vec::new();
    let mut i: usize = 0;
    while i < content.len()
        invariant
            0 <= i <= b.len(),
            content@ == b,
            spec_file_signatures(b) == rc@ + lines_rec(b, i as int, cur@).map_values(
                |l: Seq<u8>| spec_line_sig(l),
            ),
        decreases b.len() - i,
    {
        if content[i] == 10u8 {
            proof {
                assert(lines_rec(b, i as int, cur@) == seq![cur@] + lines_rec(
                    b,
                    i + 1,
                    Seq::empty(),
                ));
                assert((seq![cur@] + lines_rec(b, i + 1, Seq::empty())).map_values(
                    |l: Seq<u8>| spec_line_sig(l),
                ) =~= seq![spec_line_sig(cur@)] + lines_rec(b, i + 1, Seq::empty()).map_values(
                    |l: Seq<u8>| spec_line_sig(l),
                ));
                assert(rc@ + (seq![spec_line_sig(cur@)] + lines_rec(b, i + 1, Seq::empty()).map_values(
                    |l: Seq<u8>| spec_line_sig(l),
                )) =~= rc@.push(spec_line_sig(cur@)) + lines_rec(b, i + 1, Seq::empty()).map_values(
                    |l: Seq<u8>| spec_line_sig(l),
                ));
            }
            let sig = line_signature(cur.as_slice());
            rc.push(sig);
            cur = Vec::new();
        } else {
            cur.push(content[i]);
        }
        i += 1;
    }
    if cur.len() > 0 {
        proof {
            assert(lines_rec(b, i as int, cur@) == seq![cur@]);
            assert(seq![cur@].map_values(|l: Seq<u8>| spec_line_sig(l)) =~= seq![
                spec_line_sig(cur@),
            ]);
            assert(rc@ + seq![spec_line_sig(cur@)] =~= rc@.push(spec_line_sig(cur@)));
        }
        let sig = line_signature(cur.as_slice());
        rc.push(sig);
    } else {
        proof {
            assert(lines_rec(b, i as int, cur@) == Seq::<Seq<u8>>::empty());
            assert(Seq::<Seq<u8>>::empty().map_values(|l: Seq<u8>| spec_line_sig(l))
                =~= Seq::<u64>::empty());
            assert(rc@ + Seq::<u64>::empty() =~= rc@);
        }
    }
    rc
}

/// A file has no more lines than bytes, plus a final unterminated one.
pub proof fn lemma_lines_count(b: Seq<u8>, i: int, cur: Seq<u8>)
    requires
        0 <= i <= b.len(),
    ensures
        lines_rec(b, i, cur).len() <= b.len() - i + 1,
    decreases b.len() - i,
{
    if i < b.len() {
        if b[i] == 10u8 {
            lemma_lines_count(b, i + 1, Seq::empty());
        } else {
            lemma_lines_count(b, i + 1, cur.push(b[i]));
        }
    }
}

/// Determinism of the generator: two contents whose lines trim to the same
/// text, line for line, have identical signature sequences.
pub proof fn lemma_signature_determinism(a: Seq<u8>, b: Seq<u8>)
    requires
        spec_lines(a).len() == spec_lines(b).len(),
        forall|i: int|
            0 <= i < spec_lines(a).len() ==> crate::hashing::trimmed(
                crate::hashing::lossy_decode(#[trigger] spec_lines(a)[i]),
            ) == crate::hashing::trimmed(crate::hashing::lossy_decode(spec_lines(b)[i])),
    ensures
        spec_file_signatures(a) == spec_file_signatures(b),
{
    assert(spec_file_signatures(a) =~= spec_file_signatures(b));
}

} // verus!
