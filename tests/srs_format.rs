use std::io::Read;

use dlc_srs::keys::{domain_suffix_key, exact_domain_key};
use dlc_srs::model::{Rule, RuleType};
use dlc_srs::srs::{frame_srs, srs_payload, write_srs};
use dlc_srs::succinct_set::SuccinctSet;
use dlc_srs::varint::{push_varint, ToVarint};

fn strings(v: &[&str]) -> Vec<String> {
    v.iter().map(|s| s.to_string()).collect()
}

fn bit(words: &[u64], i: usize) -> bool {
    i / 64 < words.len() && (words[i / 64] >> (i % 64)) & 1 == 1
}

/// Children lists and leaf flags, read back from the succinct arrays.
struct Decoded {
    children: Vec<Vec<(u8, usize)>>,
    leaf: Vec<bool>,
}

fn decode(set: &SuccinctSet) -> Decoded {
    let bitmap = set.label_bitmap();
    let labels = set.labels();
    let mut children: Vec<Vec<(u8, usize)>> = vec![Vec::new()];
    let mut node = 0usize;
    let mut edge = 0usize;
    let mut pos = 0usize;
    while node < children.len() {
        if bit(bitmap, pos) {
            node += 1;
        } else {
            children.push(Vec::new());
            children[node].push((labels[edge], edge + 1));
            edge += 1;
        }
        pos += 1;
    }
    let leaf = (0..children.len()).map(|n| bit(set.leaves(), n)).collect();
    Decoded { children, leaf }
}

fn child(d: &Decoded, n: usize, b: u8) -> Option<usize> {
    d.children[n].iter().find(|(l, _)| *l == b).map(|(_, c)| *c)
}

fn leaf_child(d: &Decoded, n: usize, b: u8) -> bool {
    child(d, n, b).map(|c| d.leaf[c]).unwrap_or(false)
}

/// A domain matches an exact rule, a dotted suffix it lies strictly under, or
/// a plain suffix that it equals or lies under.
fn matches(d: &Decoded, host: &str) -> bool {
    let key: Vec<u8> = host.chars().rev().collect::<String>().into_bytes();
    let mut n = 0usize;
    for (i, &b) in key.iter().enumerate() {
        if leaf_child(d, n, b'\r') {
            return true;
        }
        if b == b'.' && i > 0 && leaf_child(d, n, b'\n') {
            return true;
        }
        match child(d, n, b) {
            Some(c) => n = c,
            None => return false,
        }
    }
    d.leaf[n] || leaf_child(d, n, b'\n')
}

fn read_varint(bytes: &[u8]) -> (usize, usize) {
    let mut value = 0usize;
    let mut shift = 0;
    let mut i = 0;
    loop {
        let b = bytes[i];
        value |= ((b & 0x7F) as usize) << shift;
        i += 1;
        if b < 0x80 {
            return (value, i);
        }
        shift += 7;
    }
}

fn inflate(bytes: &[u8]) -> Vec<u8> {
    let mut out = Vec::new();
    flate2::read::ZlibDecoder::new(bytes).read_to_end(&mut out).unwrap();
    out
}

#[test]
fn varint_known_values() {
    assert_eq!(0usize.to_varint(), vec![0x00]);
    assert_eq!(127usize.to_varint(), vec![0x7F]);
    assert_eq!(128usize.to_varint(), vec![0x80, 0x01]);
    assert_eq!(16384usize.to_varint(), vec![0x80, 0x80, 0x01]);
    assert_eq!(300usize.to_varint(), vec![0xAC, 0x02]);
}

#[test]
fn varint_round_trip_values() {
    for n in [0usize, 1, 127, 128, 255, 16383, 16384, 1 << 35, usize::MAX] {
        let bytes = n.to_varint();
        assert_eq!(read_varint(&bytes), (n, bytes.len()));
    }
}

#[test]
fn varint_appends() {
    let mut out = vec![9u8];
    push_varint(&mut out, 128);
    assert_eq!(out, vec![9, 0x80, 0x01]);
}

#[test]
fn keys_are_reversed_by_character() {
    assert_eq!(exact_domain_key("ab.c"), b"c.ba".to_vec());
    assert_eq!(exact_domain_key("\u{e9}.a"), vec![b'a', b'.', 0xC3, 0xA9]);
    assert_eq!(domain_suffix_key("a.com"), b"moc.a\n".to_vec());
    assert_eq!(domain_suffix_key(".b.com"), b"moc.b.\r".to_vec());
    assert_eq!(domain_suffix_key(""), b"\n".to_vec());
}

#[test]
fn dotted_suffix_matches_subdomains_only() {
    let d = decode(&SuccinctSet::matcher(&Vec::new(), &strings(&[".example.com"])));
    assert!(matches(&d, "foo.example.com"));
    assert!(!matches(&d, "example.com"));
    assert!(!matches(&d, "fooexample.com"));
}

#[test]
fn plain_suffix_matches_domain_and_subdomains() {
    let d = decode(&SuccinctSet::matcher(&Vec::new(), &strings(&["example.com"])));
    assert!(matches(&d, "example.com"));
    assert!(matches(&d, "foo.example.com"));
    assert!(!matches(&d, "fooexample.com"));
    assert!(!matches(&d, "example.org"));
}

#[test]
fn decoded_trie_accepts_inputs_and_rejects_others() {
    let domains = strings(&["full.example.org", "a.b", "x.y.z"]);
    let suffixes = strings(&["google.com", ".cdn.net", "example.org", "com.cn"]);
    let d = decode(&SuccinctSet::matcher(&domains, &suffixes));
    for host in ["full.example.org", "a.b", "x.y.z", "google.com", "mail.google.com", "img.cdn.net",
        "example.org", "www.example.org", "com.cn", "x.com.cn"]
    {
        assert!(matches(&d, host), "{}", host);
    }
    for host in ["b", "y.z", "w.x.y.z", "oogle.com", "cdn.net", "example.com", "cn", "net", "xa.b"] {
        assert!(!matches(&d, host), "{}", host);
    }
}

#[test]
fn exact_domains_only() {
    let d = decode(&SuccinctSet::matcher(&strings(&["a.com", "b.com"]), &Vec::new()));
    assert!(matches(&d, "a.com"));
    assert!(matches(&d, "b.com"));
    assert!(!matches(&d, "x.a.com"));
    assert!(!matches(&d, "com"));
}

#[test]
fn two_suffixes_node_count() {
    let set = SuccinctSet::matcher(&Vec::new(), &strings(&["a.com", ".b.com"]));
    // independent count: the distinct prefixes of the transformed keys, the empty one included
    let keys: [&[u8]; 2] = [b"moc.a\n", b"moc.b.\r"];
    let mut prefixes = std::collections::BTreeSet::new();
    for k in keys {
        for l in 0..=k.len() {
            prefixes.insert(k[..l].to_vec());
        }
    }
    assert_eq!(prefixes.len(), 10);
    let ones: u32 = set.label_bitmap().iter().map(|w| w.count_ones()).sum();
    assert_eq!(ones as usize, prefixes.len());
    assert_eq!(set.labels().len(), prefixes.len() - 1);
    assert_eq!(set.labels(), &b"moc.ab\n.\r".to_vec());
    // level order: root, m, o, c, '.', a, b, '\n', '.', '\r'; the leaves are nodes 7 and 9
    assert_eq!(set.leaves(), &vec![(1u64 << 7) | (1u64 << 9)]);
    // bitmap: one 0 per child then a 1, node by node
    let bits: Vec<bool> = (0..19).map(|i| bit(set.label_bitmap(), i)).collect();
    let expected = [0, 1, 0, 1, 0, 1, 0, 1, 0, 0, 1, 0, 1, 0, 1, 1, 0, 1, 1];
    for i in 0..19 {
        assert_eq!(bits[i], expected[i] == 1, "bit {}", i);
    }
    assert_eq!(set.label_bitmap().len(), 1);
}

#[test]
fn matcher_ignores_input_order() {
    let a = SuccinctSet::matcher(&strings(&["x.org", "a.org"]), &strings(&["b.com", ".c.com"]));
    let b = SuccinctSet::matcher(&strings(&["a.org", "x.org"]), &strings(&[".c.com", "b.com"]));
    let mut wa = Vec::new();
    let mut wb = Vec::new();
    a.write(&mut wa);
    b.write(&mut wb);
    assert_eq!(wa, wb);
}

#[test]
fn from_sorted_single_key() {
    let set = SuccinctSet::from_sorted(&vec![b"ab".to_vec()]);
    assert_eq!(set.labels(), &b"ab".to_vec());
    assert_eq!(set.leaves(), &vec![1u64 << 2]);
    assert_eq!(set.label_bitmap(), &vec![0b11010u64]);
}

#[test]
fn from_sorted_tolerates_repeats() {
    let once = SuccinctSet::from_sorted(&vec![b"a".to_vec(), b"ab".to_vec()]);
    let twice = SuccinctSet::from_sorted(&vec![b"a".to_vec(), b"a".to_vec(), b"ab".to_vec()]);
    assert_eq!(once.labels(), twice.labels());
    assert_eq!(once.leaves(), twice.leaves());
    assert_eq!(once.label_bitmap(), twice.label_bitmap());
}

#[test]
fn set_write_layout() {
    let set = SuccinctSet::from_sorted(&vec![b"ab".to_vec()]);
    let mut out = Vec::new();
    set.write(&mut out);
    let mut expected = vec![0u8, 1, 0, 0, 0, 0, 0, 0, 0, 4, 1, 0, 0, 0, 0, 0, 0, 0, 0b11010, 2];
    expected.extend_from_slice(b"ab");
    assert_eq!(out, expected);
}

#[test]
fn rule_type_tags() {
    assert_eq!(RuleType::Domain.tag(), 2);
    assert_eq!(RuleType::DomainKeyword.tag(), 3);
    assert_eq!(RuleType::DomainRegex.tag(), 4);
    assert_eq!(RuleType::DomainFinal.tag(), 0xFF);
}

#[test]
fn rule_insert_sorts_and_dedups() {
    let mut r = Rule::new();
    r.insert_domain_keyword("b".to_string());
    r.insert_domain_keyword("a".to_string());
    r.insert_domain_keyword("b".to_string());
    r.insert_domain_keyword("ab".to_string());
    assert_eq!(r.domain_keyword, strings(&["a", "ab", "b"]));
    let mut other = Rule::new();
    other.insert_domain_keyword("0".to_string());
    other.insert_domain("x.com".to_string());
    r.add_assign(other);
    assert_eq!(r.domain_keyword, strings(&["0", "a", "ab", "b"]));
    assert_eq!(r.domain, strings(&["x.com"]));
}

#[test]
fn payload_without_lists_has_no_list_blocks() {
    let mut r = Rule::new();
    r.insert_domain_suffix("example.com".to_string());
    let payload = srs_payload(&r);
    let mut expected = vec![1u8, 0, 2];
    SuccinctSet::matcher(&r.domain, &r.domain_suffix).write(&mut expected);
    expected.extend_from_slice(&[0xFF, 0]);
    assert_eq!(payload, expected);
}

#[test]
fn payload_lists_layout() {
    let mut r = Rule::new();
    r.insert_domain_keyword("google".to_string());
    r.insert_domain_keyword("ads".to_string());
    r.insert_domain_regex("^a+$".to_string());
    let payload = srs_payload(&r);
    let mut expected = vec![1u8, 0, 3, 2, 3];
    expected.extend_from_slice(b"ads");
    expected.push(6);
    expected.extend_from_slice(b"google");
    expected.extend_from_slice(&[4, 1, 4]);
    expected.extend_from_slice(b"^a+$");
    expected.extend_from_slice(&[0xFF, 0]);
    assert_eq!(payload, expected);
}

#[test]
fn empty_rule_payload() {
    assert_eq!(srs_payload(&Rule::new()), vec![1u8, 0, 0xFF, 0]);
}

#[test]
fn srs_file_for_one_suffix() {
    let mut r = Rule::new();
    r.insert_domain_suffix("example.com".to_string());
    let mut out = Vec::new();
    assert!(write_srs(&mut out, &r).is_ok());
    assert_eq!(&out[..4], &[0x53, 0x52, 0x53, 0x03]);
    let body = inflate(&out[4..]);
    assert_eq!(&body[..3], &[0x01, 0x00, 0x02]);
    assert_eq!(&body[body.len() - 2..], &[0xFF, 0x00]);
    assert_eq!(body, srs_payload(&r));
}

#[test]
fn srs_file_is_compressed_and_deterministic() {
    let mut r = Rule::new();
    for i in 0..200 {
        r.insert_domain(format!("host{}.example.com", i));
    }
    let mut a = Vec::new();
    let mut b = vec![7u8];
    assert!(write_srs(&mut a, &r).is_ok());
    assert!(write_srs(&mut b, &r).is_ok());
    assert_eq!(&b[1..], &a[..]);
    let payload = srs_payload(&r);
    assert!(a.len() - 4 < payload.len());
    assert_ne!(&a[4..], &payload[..]);
    assert_eq!(inflate(&a[4..]), payload);
}

#[test]
fn frame_prepends_header() {
    assert_eq!(frame_srs(&vec![9, 8]), vec![0x53, 0x52, 0x53, 3, 9, 8]);
}

#[test]
fn varint_continuation_bits_and_length() {
    for n in [0usize, 127, 128, 16384, 1 << 49, usize::MAX] {
        let b = n.to_varint();
        for i in 0..b.len() {
            assert_eq!(b[i] & 0x80 != 0, i + 1 < b.len());
        }
        assert!(b.len() <= 10);
    }
    assert_eq!(usize::MAX.to_varint().len(), 10);
}

#[test]
fn srs_file_for_empty_rule() {
    let mut out = Vec::new();
    assert!(write_srs(&mut out, &Rule::new()).is_ok());
    assert_eq!(&out[..4], &[0x53, 0x52, 0x53, 0x03]);
    assert_eq!(inflate(&out[4..]), vec![0x01, 0x00, 0xFF, 0x00]);
}

#[test]
fn same_sets_same_file() {
    let mut a = Rule::new();
    a.insert_domain_keyword("x".to_string());
    a.insert_domain_keyword("a".to_string());
    a.insert_domain_suffix("b.com".to_string());
    a.insert_domain_suffix(".c.com".to_string());
    let mut b = Rule::new();
    b.insert_domain_suffix(".c.com".to_string());
    b.insert_domain_keyword("a".to_string());
    b.insert_domain_suffix("b.com".to_string());
    b.insert_domain_keyword("x".to_string());
    b.insert_domain_keyword("a".to_string());
    let mut fa = Vec::new();
    let mut fb = Vec::new();
    assert!(write_srs(&mut fa, &a).is_ok());
    assert!(write_srs(&mut fb, &b).is_ok());
    assert_eq!(fa, fb);
}
