use duplihere::collision::Collision;
use duplihere::extend::{maximize_collision, overlap};
use duplihere::pipeline::{find_duplicates, process_file};
use duplihere::index::index_new;
use duplihere::report::report_totals;
use duplihere::rolling::rolling_hashes;
use duplihere::signatures::file_signatures;

fn lines_to_bytes(lines: &[&str]) -> Vec<u8> {
    let mut out = Vec::new();
    for l in lines {
        out.extend_from_slice(l.as_bytes());
        out.push(b'\n');
    }
    out
}

#[test]
fn signatures_deterministic_across_runs() {
    let content = b"fn main() {\n    let x = 1;\n}\n".to_vec();
    let a = file_signatures(&content);
    let b = file_signatures(&content);
    assert_eq!(a, b);
    assert_eq!(a.len(), 3);
}

#[test]
fn signatures_ignore_indentation() {
    let a = file_signatures(b"  hello\n\tworld\t\n");
    let b = file_signatures(b"hello\n      world\n");
    assert_eq!(a, b);
}

#[test]
fn signatures_differ_for_different_text() {
    let a = file_signatures(b"hello\n");
    let b = file_signatures(b"goodbye\n");
    assert_ne!(a, b);
}

#[test]
fn signatures_count_lines() {
    assert_eq!(file_signatures(b"").len(), 0);
    assert_eq!(file_signatures(b"\n").len(), 1);
    assert_eq!(file_signatures(b"a").len(), 1);
    assert_eq!(file_signatures(b"a\nb").len(), 2);
    assert_eq!(file_signatures(b"a\nb\n").len(), 2);
}

#[test]
fn lossy_decoding_does_not_fail() {
    let a = file_signatures(&[0xff, 0xfe, b'\n', b'x', b'\n']);
    assert_eq!(a.len(), 2);
}

#[test]
fn rolling_hashes_empty_for_short_files() {
    let sigs = file_signatures(b"a\nb\nc\n");
    assert!(rolling_hashes(&sigs, 3).is_empty());
    assert!(rolling_hashes(&sigs, 6).is_empty());
}

#[test]
fn rolling_hashes_offsets_and_suppression() {
    // six identical lines: every window over them hashes alike, and the
    // consecutive duplicates are suppressed
    let sigs = file_signatures(b"x\nx\nx\nx\nx\nx\n");
    let rh = rolling_hashes(&sigs, 2);
    assert_eq!(rh.len(), 1);
    assert_eq!(rh[0].1, 0);
    // distinct lines: every offset emits
    let sigs2 = file_signatures(b"a\nb\nc\nd\n");
    let rh2 = rolling_hashes(&sigs2, 2);
    assert_eq!(rh2.len(), 2);
    assert_eq!(rh2[0].1, 0);
    assert_eq!(rh2[1].1, 1);
}

#[test]
fn overlap_symmetry_on_values() {
    let cases = [
        ((0u32, 0u32), (0u32, 3u32), 6u32),
        ((0, 3), (0, 0), 6),
        ((0, 0), (1, 0), 6),
        ((2, 10), (2, 30), 5),
        ((1, 7), (1, 7), 0),
    ];
    for (a, b, n) in cases {
        assert_eq!(overlap(a, b, n), overlap(b, a, n));
    }
}

#[test]
fn overlap_detects_sharing() {
    assert!(overlap((0, 0), (0, 3), 6));
    assert!(!overlap((0, 0), (1, 3), 6));
    assert!(!overlap((0, 0), (0, 7), 6));
}

#[test]
fn maximize_extends_to_full_match() {
    let a = file_signatures(&lines_to_bytes(&["u1", "b1", "b2", "b3", "tail1"]));
    let b = file_signatures(&lines_to_bytes(&["v1", "v2", "b1", "b2", "b3", "tail2"]));
    let files = vec![a, b];
    let got = maximize_collision(&files, (0, 1), (1, 2), 2).expect("match expected");
    assert_eq!(got.num_lines, 3);
    assert_eq!(got.files, vec![(0, 1), (1, 2)]);
}

#[test]
fn maximize_rejects_self_overlap() {
    let a = file_signatures(&lines_to_bytes(&["x", "x", "x", "x"]));
    let files = vec![a];
    assert!(maximize_collision(&files, (0, 0), (0, 1), 2).is_none());
}

#[test]
fn scrub_sorts_and_dedups() {
    let mut c = Collision {
        key: 7,
        num_lines: 4,
        files: vec![(1, 9), (0, 2), (1, 9), (0, 1)],
        sig: 0,
    };
    c.scrub();
    assert_eq!(c.files, vec![(0, 1), (0, 2), (1, 9)]);
}

#[test]
fn scrub_signature_permutation_invariant() {
    let mut a = Collision { key: 1, num_lines: 5, files: vec![(0, 3), (2, 8), (1, 0)], sig: 0 };
    let mut b = Collision { key: 1, num_lines: 5, files: vec![(1, 0), (0, 3), (2, 8)], sig: 0 };
    a.scrub();
    b.scrub();
    assert_eq!(a.sig, b.sig);
    assert_eq!(a.files, b.files);
}

#[test]
fn scrub_is_idempotent() {
    let mut c = Collision { key: 3, num_lines: 6, files: vec![(0, 14), (0, 0), (0, 7)], sig: 0 };
    c.scrub();
    let files_once = c.files.clone();
    let sig_once = c.sig;
    c.scrub();
    assert_eq!(c.files, files_once);
    assert_eq!(c.sig, sig_once);
}

#[test]
fn scrub_elides_same_file_overlaps() {
    let mut c = Collision { key: 3, num_lines: 6, files: vec![(0, 0), (0, 3), (0, 12)], sig: 0 };
    c.scrub();
    assert_eq!(c.files, vec![(0, 0), (0, 12)]);
}

#[test]
fn scrub_keeps_distinct_files() {
    let mut c = Collision { key: 3, num_lines: 6, files: vec![(1, 0), (0, 0)], sig: 0 };
    c.scrub();
    assert_eq!(c.files, vec![(0, 0), (1, 0)]);
}

#[test]
fn two_files_with_shared_block() {
    // two distinct files each holding an identical, contiguous 10-line block
    let block = [
        "alpha 1", "alpha 2", "alpha 3", "alpha 4", "alpha 5", "alpha 6", "alpha 7", "alpha 8",
        "alpha 9", "alpha 10",
    ];
    let mut fa = vec!["only a 1", "only a 2"];
    fa.extend_from_slice(&block);
    fa.push("only a 3");
    let mut fb = vec!["other b 1"];
    fb.extend_from_slice(&block);
    fb.push("other b 2");
    let contents = vec![lines_to_bytes(&fa), lines_to_bytes(&fb)];
    let report = find_duplicates(&contents, 6);
    assert_eq!(report.len(), 1);
    assert_eq!(report[0].num_lines, 10);
    assert_eq!(report[0].files, vec![(1, 1), (0, 2)]);
}

#[test]
fn same_file_repeated_block() {
    // one file holding the same 8-line block twice with no gap
    let block = ["b1", "b2", "b3", "b4", "b5", "b6", "b7", "b8"];
    let mut f = Vec::new();
    f.extend_from_slice(&block);
    f.extend_from_slice(&block);
    let contents = vec![lines_to_bytes(&f)];
    let report = find_duplicates(&contents, 6);
    for g in &report {
        // no two occurrences of one group overlap in the file
        for i in 0..g.files.len() {
            for j in (i + 1)..g.files.len() {
                let (fi, si) = g.files[i];
                let (fj, sj) = g.files[j];
                if fi == fj {
                    let (lo, hi) = if si <= sj { (si, sj) } else { (sj, si) };
                    assert!(hi >= lo + g.num_lines, "overlapping occurrences reported");
                }
            }
        }
    }
    assert_eq!(report.len(), 1);
    assert_eq!(report[0].num_lines, 7);
    assert_eq!(report[0].files, vec![(0, 1), (0, 9)]);
}

#[test]
fn min_lines_larger_than_files() {
    let contents = vec![lines_to_bytes(&["a", "b", "c"]), lines_to_bytes(&["a", "b", "c"])];
    let report = find_duplicates(&contents, 50);
    assert_eq!(report.len(), 0);
    let (total, ignored) = report_totals(&report, &Vec::new());
    assert_eq!(total, 0);
    assert_eq!(ignored, 0);
}

#[test]
fn ignored_group_excluded_from_totals() {
    let block = [
        "alpha 1", "alpha 2", "alpha 3", "alpha 4", "alpha 5", "alpha 6", "alpha 7", "alpha 8",
        "alpha 9", "alpha 10",
    ];
    let mut fa = vec!["only a 1"];
    fa.extend_from_slice(&block);
    let mut fb = vec!["other b 1", "other b 2"];
    fb.extend_from_slice(&block);
    let contents = vec![lines_to_bytes(&fa), lines_to_bytes(&fb)];
    let report = find_duplicates(&contents, 6);
    assert_eq!(report.len(), 1);
    let (total, ignored) = report_totals(&report, &Vec::new());
    assert_eq!(total, 10);
    assert_eq!(ignored, 0);
    // an ignore file holding the group's printed signature in decimal
    let ignore_content = format!("# managed exceptions\n\n{}\n", report[0].sig);
    let ignores = duplihere::ignore::get_ignore_hashes(ignore_content.as_bytes());
    assert_eq!(ignores, vec![report[0].sig]);
    let (total2, ignored2) = report_totals(&report, &ignores);
    assert_eq!(total2, 0);
    assert_eq!(ignored2, 1);
    // the raw result still holds the group
    assert_eq!(report.len(), 1);
}

#[test]
fn process_file_builds_index() {
    let mut file_hashes: Vec<Vec<u64>> = Vec::new();
    let mut index = index_new();
    let content = lines_to_bytes(&["a", "b", "c", "d"]);
    process_file(0, &content, 2, &mut file_hashes, &mut index);
    assert_eq!(file_hashes.len(), 1);
    assert_eq!(file_hashes[0], file_signatures(&content));
}
