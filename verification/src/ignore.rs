//! The ignore-list format: one decimal group signature per line, with blank
//! lines and `#` comments skipped and malformed lines dropped.

use vstd::prelude::*;
use crate::signatures::{lines_rec, spec_lines};

verus! {

/// ASCII whitespace, as it occurs at the edges of an ignore-file line.
pub open spec fn is_ascii_ws(b: u8) -> bool {
    b == 32 || b == 9 || b == 10 || b == 13 || b == 11 || b == 12
}

/// An ASCII decimal digit.
pub open spec fn is_digit(b: u8) -> bool {
    48 <= b <= 57
}

/// Leading whitespace removed.
pub open spec fn trim_start_rec(s: Seq<u8>) -> Seq<u8>
    decreases s.len(),
{
    if s.len() > 0 && is_ascii_ws(s[0]) {
        trim_start_rec(s.drop_first())
    } else {
        s
    }
}

/// Trailing whitespace removed.
pub open spec fn trim_end_rec(s: Seq<u8>) -> Seq<u8>
    decreases s.len(),
{
    if s.len() > 0 && is_ascii_ws(s.last()) {
        trim_end_rec(s.drop_last())
    } else {
        s
    }
}

/// Whitespace removed at both ends.
pub open spec fn spec_trim_ascii(s: Seq<u8>) -> Seq<u8> {
    trim_end_rec(trim_start_rec(s))
}

/// Every byte a digit.
pub open spec fn all_digits(s: Seq<u8>) -> bool {
    forall|i: int| 0 <= i < s.len() ==> is_digit(#[trigger] s[i])
}

/// The value of a digit string, most significant first.
pub open spec fn digits_val(s: Seq<u8>) -> int
    decreases s.len(),
{
    if s.len() == 0 {
        0
    } else {
        digits_val(s.drop_last()) * 10 + (s.last() - 48)
    }
}

/// What parsing an unsigned 64-bit decimal accepts: an optional leading `+`,
/// then one or more digits whose value fits.
pub open spec fn spec_parse_u64(s: Seq<u8>) -> Option<u64> {
    let t = if s.len() > 0 && s[0] == 43 {
        s.drop_first()
    } else {
        s
    };
    if t.len() == 0 || !all_digits(t) {
        None
    } else if digits_val(t) > u64::MAX {
        None
    } else {
        Some(digits_val(t) as u64)
    }
}

/// Digit strings have non-negative values.
proof fn lemma_digits_val_nonneg(s: Seq<u8>)
    requires
        all_digits(s),
    ensures
        digits_val(s) >= 0,
    decreases s.len(),
{
    if s.len() > 0 {
        assert(all_digits(s.drop_last()));
        lemma_digits_val_nonneg(s.drop_last());
        assert(is_digit(s.last()));
    }
}

/// A prefix of a digit string is worth no more than the whole.
proof fn lemma_digits_prefix_le(s: Seq<u8>, i: int)
    requires
        all_digits(s),
        0 <= i <= s.len(),
    ensures
        digits_val(s.take(i)) <= digits_val(s),
    decreases s.len(),
{
    if i < s.len() {
        let sd = s.drop_last();
        assert(all_digits(sd));
        assert(s.take(i) =~= sd.take(i));
        lemma_digits_prefix_le(sd, i);
        lemma_digits_val_nonneg(sd);
        assert(is_digit(s.last()));
        assert(digits_val(sd) * 10 >= digits_val(sd)) by (nonlinear_arith)
            requires
                digits_val(sd) >= 0,
        ;
    } else {
        assert(s.take(i) =~= s);
    }
}

/// Trim ASCII whitespace from both ends of a line.
pub fn trim_ascii(line: &[u8]) -> (r: Vec<u8>)
    ensures
        r@ == spec_trim_ascii(line@),
{
    let ghost s = line@;
    proof {
        assert(s.subrange(0, s.len() as int) =~= s);
    }
    let mut lo: usize = 0;
    while lo < line.len() && (line[lo] == 32 || line[lo] == 9 || line[lo] == 10 || line[lo] == 13
        || line[lo] == 11 || line[lo] == 12)
        invariant
            0 <= lo <= s.len(),
            line@ == s,
            trim_start_rec(s) == trim_start_rec(s.subrange(lo as int, s.len() as int)),
        decreases s.len() - lo,
    {
        proof {
            assert(s.subrange(lo as int, s.len() as int).drop_first() =~= s.subrange(
                lo + 1,
                s.len() as int,
            ));
        }
        lo += 1;
    }
    proof {
        assert(trim_start_rec(s) == s.subrange(lo as int, s.len() as int));
    }
    let mut hi: usize = line.len();
    while hi > lo && (line[hi - 1] == 32 || line[hi - 1] == 9 || line[hi - 1] == 10 || line[hi - 1]
        == 13 || line[hi - 1] == 11 || line[hi - 1] == 12)
        invariant
            0 <= lo <= hi <= s.len(),
            line@ == s,
            trim_start_rec(s) == s.subrange(lo as int, s.len() as int),
            trim_end_rec(s.subrange(lo as int, s.len() as int)) == trim_end_rec(
                s.subrange(lo as int, hi as int),
            ),
        decreases hi,
    {
        proof {
            assert(s.subrange(lo as int, hi as int).drop_last() =~= s.subrange(
                lo as int,
                hi - 1,
            ));
        }
        hi -= 1;
    }
    proof {
        assert(trim_end_rec(s.subrange(lo as int, hi as int)) == s.subrange(lo as int, hi as int));
    }
    let mut r: Vec<u8> = Vec::new();
    let mut t: usize = lo;
    while t < hi
        invariant
            lo <= t <= hi <= s.len(),
            line@ == s,
            r@ == s.subrange(lo as int, t as int),
        decreases hi - t,
    {
        proof {
            assert(s.subrange(lo as int, t + 1) =~= s.subrange(lo as int, t as int).push(
                s[t as int],
            ));
        }
        r.push(line[t]);
        t += 1;
    }
    r
}

/// Parse an unsigned 64-bit decimal: an optional leading `+`, then digits.
/// Anything else, or a value past `u64::MAX`, is rejected.
pub fn parse_u64_decimal(s: &[u8]) -> (r: Option<u64>)
    ensures
        r == spec_parse_u64(s@),
{
    let ghost s0 = s@;
    let mut start: usize = 0;
    if s.len() > 0 && s[0] == 43u8 {
        start = 1;
    }
    let ghost t = if s0.len() > 0 && s0[0] == 43 {
        s0.drop_first()
    } else {
        s0
    };
    proof {
        assert(t =~= s0.subrange(start as int, s0.len() as int));
    }
    if start == s.len() {
        return None;
    }
    let mut acc: u64 = 0;
    let mut i: usize = start;
    while i < s.len()
        invariant
            s@ == s0,
            start <= i <= s0.len(),
            start <= 1,
            t == s0.subrange(start as int, s0.len() as int),
            t == (if s0.len() > 0 && s0[0] == 43 {
                s0.drop_first()
            } else {
                s0
            }),
            forall|j: int| 0 <= j < i - start ==> is_digit(#[trigger] t[j]),
            acc == digits_val(t.take(i - start)),
        decreases s0.len() - i,
    {
        let b = s[i];
        if !(48 <= b && b <= 57) {
            proof {
                assert(t[i - start] == s0[i as int]);
                assert(!is_digit(t[i - start]));
                assert(!all_digits(t));
                assert(t.len() > 0);
                assert(spec_parse_u64(s0) == None::<u64>);
            }
            return None;
        }
        let d: u64 = (b - 48) as u64;
        proof {
            assert(t.take(i - start + 1).drop_last() =~= t.take(i - start));
            assert(t.take(i - start + 1).last() == s0[i as int]);
        }
        if acc > (u64::MAX - d) / 10 {
            proof {
                assert(digits_val(t.take(i - start + 1)) == acc * 10 + d);
                assert(acc * 10 + d > u64::MAX) by (nonlinear_arith)
                    requires
                        acc > (u64::MAX - d) / 10,
                        d <= 9,
                ;
                if all_digits(t) {
                    lemma_digits_prefix_le(t, i - start + 1);
                    assert(digits_val(t) > u64::MAX);
                }
                assert(t.len() > 0);
                assert(spec_parse_u64(s0) == None::<u64>);
            }
            return None;
        }
        proof {
            assert(acc * 10 + d <= u64::MAX) by (nonlinear_arith)
                requires
                    acc <= (u64::MAX - d) / 10,
                    d <= 9,
            ;
        }
        acc = acc * 10 + d;
        i += 1;
    }
    proof {
        assert(t.take(s0.len() - start) =~= t);
        assert(all_digits(t));
    }
    Some(acc)
}

/// What one ignore-file line contributes: nothing for a blank line, a
/// comment or a malformed value; otherwise the parsed signature.
pub open spec fn line_entry(l: Seq<u8>) -> Option<u64> {
    let t = spec_trim_ascii(l);
    if t.len() == 0 || t[0] == 35 {
        None
    } else {
        spec_parse_u64(t)
    }
}

/// The signatures that a sequence of lines contributes, in order.
pub open spec fn ignore_entries(ls: Seq<Seq<u8>>) -> Seq<u64>
    decreases ls.len(),
{
    if ls.len() == 0 {
        Seq::empty()
    } else {
        match line_entry(ls[0]) {
            Some(v) => seq![v] + ignore_entries(ls.drop_first()),
            None => ignore_entries(ls.drop_first()),
        }
    }
}

/// The signatures held by an ignore file's content.
pub open spec fn spec_ignore_hashes(content: Seq<u8>) -> Seq<u64> {
    ignore_entries(spec_lines(content))
}

/// Read the ignore set out of the file's content: one signature per
/// well-formed line, blank lines and `#` comments skipped, malformed lines
/// dropped.
pub fn get_ignore_hashes(content: &[u8]) -> (r: Vec<u64>)
    ensures
        r@ == spec_ignore_hashes(content@),
{
    let ghost b = content@;
    let mut rc: Vec<u64> = Vec::new();
    let mut cur: Vec<u8> = Vec::new();
    let mut i: usize = 0;
    while i < content.len()
        invariant
            0 <= i <= b.len(),
            content@ == b,
            spec_ignore_hashes(b) == rc@ + ignore_entries(lines_rec(b, i as int, cur@)),
        decreases b.len() - i,
    {
        if content[i] == 10u8 {
            proof {
                let rest = lines_rec(b, i + 1, Seq::empty());
                assert(lines_rec(b, i as int, cur@) == seq![cur@] + rest);
                assert((seq![cur@] + rest)[0] == cur@);
                assert((seq![cur@] + rest).drop_first() =~= rest);
                match line_entry(cur@) {
                    Some(v) => {
                        assert(rc@ + (seq![v] + ignore_entries(rest)) =~= rc@.push(v)
                            + ignore_entries(rest));
                    },
                    None => {},
                }
            }
            push_line_entry(&mut rc, &cur);
            cur = Vec::new();
        } else {
            cur.push(content[i]);
        }
        i += 1;
    }
    if cur.len() > 0 {
        proof {
            assert(lines_rec(b, i as int, cur@) == seq![cur@]);
            assert(seq![cur@][0] == cur@);
            assert(seq![cur@].drop_first() =~= Seq::<Seq<u8>>::empty());
            assert(ignore_entries(Seq::<Seq<u8>>::empty()) == Seq::<u64>::empty());
            match line_entry(cur@) {
                Some(v) => {
                    assert(ignore_entries(seq![cur@]) == seq![v] + Seq::<u64>::empty());
                    assert(seq![v] + Seq::<u64>::empty() =~= seq![v]);
                    assert(spec_ignore_hashes(b) == rc@ + seq![v]);
                    assert(rc@ + seq![v] =~= rc@.push(v));
                },
                None => {
                    assert(ignore_entries(seq![cur@]) == Seq::<u64>::empty());
                    assert(rc@ + Seq::<u64>::empty() =~= rc@);
                    assert(spec_ignore_hashes(b) == rc@);
                },
            }
        }
        push_line_entry(&mut rc, &cur);
    } else {
        proof {
            assert(lines_rec(b, i as int, cur@) == Seq::<Seq<u8>>::empty());
            assert(ignore_entries(Seq::<Seq<u8>>::empty()) == Seq::<u64>::empty());
            assert(rc@ + Seq::<u64>::empty() =~= rc@);
        }
    }
    rc
}

/// Append what one line contributes, if anything.
fn push_line_entry(rc: &mut Vec<u64>, line: &Vec<u8>)
    ensures
        final(rc)@ == match line_entry(line@) {
            Some(v) => old(rc)@.push(v),
            None => old(rc)@,
        },
{
    let t = trim_ascii(line.as_slice());
    if t.len() > 0 && t[0] != 35u8 {
        match parse_u64_decimal(t.as_slice()) {
            Some(v) => {
                rc.push(v);
            },
            None => {},
        }
    }
}

} // verus!
