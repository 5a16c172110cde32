use update_alternatives::codec::{encode_group, parse_i32, parse_records, push_i32};
use update_alternatives::order::{bytes_eq, bytes_lt};
use update_alternatives::record::Record;

fn b(s: &str) -> Vec<u8> {
    s.as_bytes().to_vec()
}

fn pairs(recs: &[Record]) -> Vec<(Vec<u8>, i32)> {
    recs.iter().map(|r| (r.target().clone(), r.priority())).collect()
}

#[test]
fn parse_i32_accepts_plain_numbers() {
    assert_eq!(parse_i32(b"0"), Some(0));
    assert_eq!(parse_i32(b"42"), Some(42));
    assert_eq!(parse_i32(b"-7"), Some(-7));
    assert_eq!(parse_i32(b"007"), Some(7));
    assert_eq!(parse_i32(b"-0"), Some(0));
}

#[test]
fn parse_i32_handles_the_32_bit_boundaries() {
    assert_eq!(parse_i32(b"2147483647"), Some(i32::MAX));
    assert_eq!(parse_i32(b"-2147483648"), Some(i32::MIN));
    assert_eq!(parse_i32(b"2147483648"), None);
    assert_eq!(parse_i32(b"-2147483649"), None);
    assert_eq!(parse_i32(b"99999999999999999999"), None);
}

#[test]
fn parse_i32_rejects_malformed_fields() {
    assert_eq!(parse_i32(b""), None);
    assert_eq!(parse_i32(b"-"), None);
    assert_eq!(parse_i32(b"12a"), None);
    assert_eq!(parse_i32(b"+5"), None);
    assert_eq!(parse_i32(b" 5"), None);
    assert_eq!(parse_i32(b"5 "), None);
}

#[test]
fn push_i32_writes_canonical_decimals() {
    let mut out = Vec::new();
    push_i32(0, &mut out);
    assert_eq!(out, b("0"));
    let mut out = Vec::new();
    push_i32(-123, &mut out);
    assert_eq!(out, b("-123"));
    let mut out = Vec::new();
    push_i32(i32::MIN, &mut out);
    assert_eq!(out, b("-2147483648"));
    let mut out = Vec::new();
    push_i32(i32::MAX, &mut out);
    assert_eq!(out, b("2147483647"));
}

#[test]
fn encode_group_writes_one_line_per_record() {
    let records = vec![
        Record::from_parts(b("/usr/bin/vim"), 50),
        Record::from_parts(b("/usr/bin/nano"), -3),
    ];
    let content = encode_group(&records);
    assert_eq!(content, b("/usr/bin/vim 50\n/usr/bin/nano -3\n"));
}

#[test]
fn parse_records_reads_exact_lines() {
    let recs = parse_records(b"/usr/bin/vim 50\n/usr/bin/nano -3\n").expect("well-formed");
    assert_eq!(
        pairs(&recs),
        vec![(b("/usr/bin/vim"), 50), (b("/usr/bin/nano"), -3)]
    );
}

#[test]
fn parse_records_of_empty_content_is_empty() {
    let recs = parse_records(b"").expect("empty file is well-formed");
    assert!(recs.is_empty());
}

#[test]
fn targets_with_spaces_round_trip() {
    let records = vec![Record::from_parts(b("/opt/my editor/bin x"), 7)];
    let content = encode_group(&records);
    assert_eq!(content, b("/opt/my editor/bin x 7\n"));
    let back = parse_records(&content).expect("round trip");
    assert_eq!(pairs(&back), vec![(b("/opt/my editor/bin x"), 7)]);
}

#[test]
fn parse_records_rejects_malformed_content() {
    assert!(parse_records(b"no-separator\n").is_none());
    assert!(parse_records(b"\n").is_none());
    assert!(parse_records(b"a b\n").is_none());
    assert!(parse_records(b"/usr/bin/vim 50").is_none());
    assert!(parse_records(b"/usr/bin/vim 50\nbroken\n").is_none());
    assert!(parse_records(b"/usr/bin/vim 2147483648\n").is_none());
}

#[test]
fn byte_order_helpers_agree_with_lexicographic_order() {
    assert!(bytes_lt(b"abc", b"abd"));
    assert!(bytes_lt(b"ab", b"abc"));
    assert!(!bytes_lt(b"abc", b"abc"));
    assert!(!bytes_lt(b"b", b"ab"));
    assert!(bytes_eq(b"same", b"same"));
    assert!(!bytes_eq(b"same", b"sam"));
}
