use report_reader::entry::{classify_entry, file_stem, RecordKind};
use report_reader::records::{decode_component, decode_coverages, decode_issues};
use report_reader::report::{build_report, parse_proto_file, Decoded, ParsedReport};
use report_reader::wire::{decode_fields, split_frames};

fn varint(mut v: u64) -> Vec<u8> {
    let mut out = Vec::new();
    loop {
        let b = (v & 0x7f) as u8;
        v >>= 7;
        if v == 0 {
            out.push(b);
            return out;
        }
        out.push(b | 0x80);
    }
}

fn key(tag: u64, wire: u64) -> Vec<u8> {
    varint((tag << 3) | wire)
}

fn int_field(tag: u64, v: u64) -> Vec<u8> {
    let mut out = key(tag, 0);
    out.extend(varint(v));
    out
}

fn bytes_field(tag: u64, b: &[u8]) -> Vec<u8> {
    let mut out = key(tag, 2);
    out.extend(varint(b.len() as u64));
    out.extend_from_slice(b);
    out
}

fn frame(msg: &[u8]) -> Vec<u8> {
    let mut out = varint(msg.len() as u64);
    out.extend_from_slice(msg);
    out
}

fn component(r: u64, k: &str, path: &str, test: bool) -> Vec<u8> {
    let mut out = int_field(1, r);
    out.extend(int_field(5, test as u64));
    out.extend(bytes_field(10, k.as_bytes()));
    out.extend(bytes_field(14, path.as_bytes()));
    out
}

fn coverage(line: u64, conditions: u64, hits: Option<bool>, covered: Option<u64>) -> Vec<u8> {
    let mut out = int_field(1, line);
    out.extend(int_field(2, conditions));
    if let Some(h) = hits {
        out.extend(int_field(3, h as u64));
    }
    if let Some(c) = covered {
        out.extend(int_field(4, c));
    }
    out
}

fn rule(repo: &str) -> Vec<u8> {
    let mut out = bytes_field(1, repo.as_bytes());
    out.extend(bytes_field(2, b"S100"));
    out
}

fn entry(name: &str, bytes: Vec<u8>) -> (Vec<u8>, Vec<u8>) {
    (name.as_bytes().to_vec(), bytes)
}

fn rule_count(r: &ParsedReport, repo: &str) -> Option<u64> {
    r.rules.iter().find(|(k, _)| k.as_slice() == repo.as_bytes()).map(|(_, n)| *n)
}

#[test]
fn later_unit_entry_replaces_earlier() {
    let es = vec![
        entry("component-7.pb", component(7, "first", "a.rs", false)),
        entry("component-9.pb", component(9, "other", "b.rs", false)),
        entry("component-7.pb", component(8, "second", "c.rs", true)),
    ];
    let r = build_report(&es);
    assert_eq!(r.components.len(), 2);
    let c = &r.components[0].component;
    assert_eq!(c.ref_id, 8);
    assert_eq!(c.key, b"second".to_vec());
    assert_eq!(c.project_relative_path, b"c.rs".to_vec());
    assert!(c.is_test);
    assert_eq!(r.components[1].component.ref_id, 9);
}

#[test]
fn stream_of_two_buffers_decodes_as_both() {
    let mut a = frame(&coverage(1, 2, Some(true), Some(1)));
    a.extend(frame(&coverage(2, 0, None, None)));
    let b = frame(&coverage(5, 4, Some(false), None));
    let da = decode_coverages(&a).unwrap();
    let db = decode_coverages(&b).unwrap();
    let mut ab = a.clone();
    ab.extend(b.clone());
    let dab = decode_coverages(&ab).unwrap();
    assert_eq!(dab.len(), da.len() + db.len());
    let lines: Vec<i32> = dab.iter().map(|c| c.line).collect();
    assert_eq!(lines, vec![1, 2, 5]);
    assert_eq!(dab[0].hits, Some(true));
    assert_eq!(dab[0].covered_conditions, Some(1));
    assert_eq!(dab[1].hits, None);
    assert_eq!(dab[2].hits, Some(false));
    assert_eq!(dab[2].conditions, 4);
}

#[test]
fn empty_coverage_entry_is_an_empty_list() {
    let es = vec![
        entry("component-3.pb", component(3, "k3", "x.rs", false)),
        entry("component-4.pb", component(4, "k4", "y.rs", false)),
        entry("coverages-3.pb", Vec::new()),
    ];
    let r = build_report(&es);
    assert_eq!(r.components.len(), 2);
    assert_eq!(r.components[0].coverages.as_ref().map(|v| v.len()), Some(0));
    assert!(r.components[1].coverages.is_none());
}

#[test]
fn truncated_finding_entry_gives_no_findings() {
    let mut bad = varint(10);
    bad.extend(int_field(1, 1));
    let mut good = frame(&int_field(1, 5));
    good.extend(frame(&bytes_field(2, b"msg")));
    let es = vec![
        entry("component-1.pb", component(1, "p", "", false)),
        entry("component-2.pb", component(2, "q", "q.rs", false)),
        entry("issues-1.pb", bad),
        entry("issues-2.pb", good),
        entry("coverages-1.pb", frame(&coverage(3, 0, Some(true), None))),
    ];
    let r = build_report(&es);
    assert!(r.components[0].issues.is_none());
    assert_eq!(r.components[0].coverages.as_ref().map(|v| v.len()), Some(1));
    assert_eq!(r.components[1].issues.as_ref().map(|v| v.len()), Some(2));
}

#[test]
fn rule_activations_are_counted_by_repository() {
    let mut b = frame(&rule("repoA"));
    b.extend(frame(&rule("repoA")));
    b.extend(frame(&rule("repoB")));
    let r = build_report(&vec![entry("activerules.pb", b)]);
    assert_eq!(r.rules.len(), 2);
    assert_eq!(rule_count(&r, "repoA"), Some(2));
    assert_eq!(rule_count(&r, "repoB"), Some(1));
    assert!(r.components.is_empty());
}

#[test]
fn single_root_unit_report() {
    let r = build_report(&vec![entry("component-5.pb", component(1, "proj", "", false))]);
    assert_eq!(r.components.len(), 1);
    let pc = &r.components[0];
    assert!(pc.component.project_relative_path.is_empty());
    assert!(!pc.component.is_test);
    assert!(pc.issues.is_none());
    assert!(pc.coverages.is_none());
    assert!(pc.duplications.is_none());
    assert!(r.rules.is_empty());
}

#[test]
fn data_without_a_unit_is_dropped() {
    let dup = {
        let mut m = bytes_field(1, &int_field(1, 1));
        m.extend(bytes_field(2, &int_field(1, 3)));
        frame(&m)
    };
    let es = vec![
        entry("component-1.pb", component(1, "p", "", false)),
        entry("duplications-8.pb", dup.clone()),
        entry("duplications-1.pb", dup),
    ];
    let r = build_report(&es);
    assert_eq!(r.components.len(), 1);
    let d = r.components[0].duplications.as_ref().unwrap();
    assert_eq!(d.len(), 1);
    assert_eq!(d[0].duplicates.len(), 1);
}

#[test]
fn units_come_in_ascending_key_order() {
    let es = vec![
        entry("component-b.pb", component(2, "b", "b", false)),
        entry("component-a.pb", component(1, "a", "a", false)),
        entry("component-10.pb", component(3, "10", "10", false)),
        entry("component-1.pb", component(4, "1", "1", false)),
    ];
    let r = build_report(&es);
    let refs: Vec<i32> = r.components.iter().map(|c| c.component.ref_id).collect();
    assert_eq!(refs, vec![4, 3, 1, 2]);
}

#[test]
fn multi_byte_varint_is_read() {
    let c = decode_component(&component(300, "k", "p", false)).unwrap();
    assert_eq!(c.ref_id, 300);
    let big = decode_component(&int_field(1, u64::MAX)).unwrap();
    assert_eq!(big.ref_id, -1);
}

#[test]
fn overlong_varint_is_rejected() {
    let mut b = key(1, 0);
    b.extend(vec![0xff; 9]);
    b.push(0x02);
    assert!(decode_component(&b).is_none());
    let mut ok = key(1, 0);
    ok.extend(vec![0xff; 9]);
    ok.push(0x01);
    assert!(decode_component(&ok).is_some());
}

#[test]
fn malformed_messages_are_rejected() {
    assert!(decode_fields(&[0x00, 0x01]).is_none());
    assert!(decode_fields(&[0x0b]).is_none());
    assert!(decode_fields(&[0x0a, 0x05, 0x01]).is_none());
    assert!(decode_component(&bytes_field(1, b"x")).is_none());
    assert!(decode_component(&bytes_field(14, &[0xff, 0xfe])).is_none());
    assert!(decode_component(&bytes_field(14, "é".as_bytes())).is_some());
}

#[test]
fn unknown_fields_are_skipped() {
    let mut b = component(6, "k", "p", false);
    b.extend(bytes_field(3, b"name"));
    b.extend(key(20, 1));
    b.extend(vec![0u8; 8]);
    b.extend(key(21, 5));
    b.extend(vec![0u8; 4]);
    let fields = decode_fields(&b).unwrap();
    assert_eq!(fields.len(), 7);
    assert_eq!(fields[6].wire, 5);
    assert_eq!(fields[6].data.len(), 4);
    assert_eq!(decode_component(&b).unwrap().ref_id, 6);
}

#[test]
fn frames_are_split() {
    let mut b = frame(b"ab");
    b.extend(frame(b""));
    b.extend(frame(b"xyz"));
    let f = split_frames(&b).unwrap();
    assert_eq!(f, vec![b"ab".to_vec(), Vec::new(), b"xyz".to_vec()]);
    assert!(split_frames(&[0x05, 0x01]).is_none());
    assert_eq!(split_frames(&[]).unwrap().len(), 0);
}

#[test]
fn issue_keeps_its_message() {
    let msg = bytes_field(2, b"hello");
    let v = decode_issues(&frame(&msg)).unwrap();
    assert_eq!(v.len(), 1);
    assert_eq!(v[0].data, msg);
}

#[test]
fn entry_names_are_classified() {
    let c = |s: &str| classify_entry(s.as_bytes()).map(|(k, key)| (k, String::from_utf8(key).unwrap()));
    assert_eq!(c("component-12.pb"), Some((RecordKind::Unit, "12".to_string())));
    assert_eq!(c("issues-3.pb"), Some((RecordKind::Finding, "3".to_string())));
    assert_eq!(c("dir/coverages-4.pb"), Some((RecordKind::Coverage, "4".to_string())));
    assert_eq!(c("duplications-5.pb"), Some((RecordKind::Duplication, "5".to_string())));
    assert_eq!(c("activerules.pb"), Some((RecordKind::RuleActivation, "".to_string())));
    assert_eq!(c("metadata.pb"), None);
    assert_eq!(c("component.pb"), None);
    assert_eq!(c("component-1.tar.gz"), Some((RecordKind::Unit, "1.tar".to_string())));
}

#[test]
fn file_stems() {
    assert_eq!(file_stem(b"a/b/c.d.e"), b"c.d".to_vec());
    assert_eq!(file_stem(b".hidden"), b".hidden".to_vec());
    assert_eq!(file_stem(b"plain"), b"plain".to_vec());
    assert_eq!(file_stem(b"x/"), Vec::<u8>::new());
}

#[test]
fn unknown_entries_are_ignored() {
    let es = vec![
        entry("metadata.pb", vec![0xff]),
        entry("component-2.pb", component(2, "k", "k.rs", false)),
        entry("component-3.pb", vec![0x0a, 0x09]),
    ];
    let r = build_report(&es);
    assert_eq!(r.components.len(), 1);
}

#[test]
fn decoding_follows_the_kind() {
    match parse_proto_file(&component(4, "k", "", false), RecordKind::Unit) {
        Some(Decoded::Unit(c)) => assert_eq!(c.ref_id, 4),
        _ => panic!("expected a unit"),
    }
    match parse_proto_file(&frame(&rule("r")), RecordKind::RuleActivation) {
        Some(Decoded::Rules(v)) => assert_eq!(v[0].rule_repository, b"r".to_vec()),
        _ => panic!("expected rules"),
    }
    assert!(parse_proto_file(&[0x05], RecordKind::Finding).is_none());
}
