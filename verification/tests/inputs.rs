use duplihere::ignore::{get_ignore_hashes, parse_u64_decimal, trim_ascii};
use duplihere::options::Options;
use duplihere::registry::{FileId, RegistryError};

#[test]
fn parses_plain_decimal() {
    assert_eq!(parse_u64_decimal(b"0"), Some(0));
    assert_eq!(parse_u64_decimal(b"12345"), Some(12345));
    assert_eq!(parse_u64_decimal(b"18446744073709551615"), Some(u64::MAX));
}

#[test]
fn parses_leading_plus() {
    assert_eq!(parse_u64_decimal(b"+123"), Some(123));
}

#[test]
fn rejects_malformed_numbers() {
    assert_eq!(parse_u64_decimal(b""), None);
    assert_eq!(parse_u64_decimal(b"+"), None);
    assert_eq!(parse_u64_decimal(b"12a"), None);
    assert_eq!(parse_u64_decimal(b"-1"), None);
    assert_eq!(parse_u64_decimal(b"18446744073709551616"), None);
    assert_eq!(parse_u64_decimal(b"99999999999999999999999999"), None);
}

#[test]
fn trims_ascii_whitespace() {
    assert_eq!(trim_ascii(b"  42\t"), b"42".to_vec());
    assert_eq!(trim_ascii(b"\r\n"), Vec::<u8>::new());
    assert_eq!(trim_ascii(b"a b"), b"a b".to_vec());
}

#[test]
fn ignore_file_format() {
    let content = b"# comment\n\n 17 \nbadline\n42\n+5\n";
    assert_eq!(get_ignore_hashes(content), vec![17, 42, 5]);
}

#[test]
fn ignore_file_empty() {
    assert_eq!(get_ignore_hashes(b""), Vec::<u64>::new());
    assert_eq!(get_ignore_hashes(b"# only a comment\n"), Vec::<u64>::new());
}

#[test]
fn registry_assigns_dense_ids() {
    let mut reg = FileId::new();
    assert_eq!(reg.register_file("/a/b.c"), Ok(Some(0)));
    assert_eq!(reg.register_file("/a/d.c"), Ok(Some(1)));
    assert_eq!(reg.register_file("/a/b.c"), Ok(None));
    assert_eq!(reg.number_files(), 2);
    assert_eq!(reg.id_to_name(0), "/a/b.c".to_string());
    assert_eq!(reg.id_to_name(1), "/a/d.c".to_string());
}

#[test]
fn registry_error_is_distinct() {
    assert_eq!(RegistryError::Exhausted, RegistryError::Exhausted);
}

#[test]
fn default_options() {
    let o = Options::default();
    assert_eq!(o.lines, 6);
    assert!(!o.print);
    assert!(!o.json);
    assert!(o.file_globs.is_empty());
    assert!(o.ignore.is_empty());
    assert_eq!(o.threads, 4);
}
