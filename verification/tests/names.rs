use arkdns::name::{bytes_eq, to_lower_byte, to_lower_bytes, DomainName};

fn labels(parts: &[&str]) -> Vec<Vec<u8>> {
    parts.iter().map(|p| p.as_bytes().to_vec()).collect()
}

#[test]
fn parse_reads_labels_and_lowers_them() {
    let name = DomainName::parse("Web.Main.prod.internal.").unwrap();
    assert_eq!(name.label_count(), 4);
    assert_eq!(name.label(0), b"web");
    assert_eq!(name.label(1), b"main");
    assert_eq!(name.label(2), b"prod");
    assert_eq!(name.label(3), b"internal");
    assert_eq!(name.to_labels(), labels(&["web", "main", "prod", "internal"]));
}

#[test]
fn parse_takes_a_name_with_or_without_the_last_dot() {
    let with = DomainName::parse("web.main.prod.internal.").unwrap();
    let without = DomainName::parse("web.main.prod.internal").unwrap();
    assert_eq!(with, without);
    assert!(with.same_as(&without));
}

#[test]
fn parse_reads_the_root() {
    let root = DomainName::parse(".").unwrap();
    assert_eq!(root.label_count(), 0);
    assert_eq!(root, DomainName::root());
    assert_eq!(root.len(), 0);
}

#[test]
fn parse_refuses_an_empty_label() {
    assert!(DomainName::parse("a..b").is_none());
}

#[test]
fn parse_refuses_a_label_that_is_too_long() {
    let long = "a".repeat(64);
    assert!(DomainName::parse(&format!("{long}.internal")).is_none());
    let fits = "a".repeat(63);
    assert!(DomainName::parse(&format!("{fits}.internal")).is_some());
}

#[test]
fn parse_reads_an_escaped_dot_as_part_of_a_label() {
    let name = DomainName::parse("a\\.b.internal").unwrap();
    assert_eq!(name.label_count(), 2);
    assert_eq!(name.label(0), b"a.b");
}

#[test]
fn from_labels_lowers_and_checks_lengths() {
    let name = DomainName::from_labels(labels(&["WWW", "Example"])).unwrap();
    assert_eq!(name.to_labels(), labels(&["www", "example"]));
    assert!(DomainName::from_labels(labels(&["www", ""])).is_none());
    assert!(DomainName::from_labels(vec![vec![b'a'; 64]]).is_none());
    assert!(DomainName::from_labels(vec![vec![b'a'; 63]]).is_some());
}

#[test]
fn from_labels_checks_the_length_of_the_name() {
    // three labels of 63 bytes and one of 62 make 63 * 3 + 62 + 4 = 255
    let mut parts = vec![vec![b'a'; 63], vec![b'b'; 63], vec![b'c'; 63], vec![b'd'; 62]];
    let name = DomainName::from_labels(parts.clone()).unwrap();
    assert_eq!(name.len(), 255);
    parts[3].push(b'd');
    assert!(DomainName::from_labels(parts).is_none());
}

#[test]
fn from_labels_keeps_bytes_that_are_no_letters() {
    let name = DomainName::from_labels(vec![vec![0x00, 0x40, 0x5b, 0xc3, 0x89]]).unwrap();
    assert_eq!(name.label(0), &[0x00, 0x40, 0x5b, 0xc3, 0x89]);
}

#[test]
fn zone_of_goes_by_labels() {
    let zone = DomainName::parse("counter.example").unwrap();
    let inside = DomainName::parse("x.counter.example.").unwrap();
    let outside = DomainName::parse("evilcounter.example.").unwrap();
    let shorter = DomainName::parse("example.").unwrap();
    assert!(zone.zone_of(&inside));
    assert!(zone.zone_of(&zone));
    assert!(!zone.zone_of(&outside));
    assert!(!zone.zone_of(&shorter));
    assert!(shorter.zone_of(&zone));
    assert!(DomainName::root().zone_of(&inside));
    assert!(!inside.zone_of(&DomainName::root()));
}

#[test]
fn zone_of_ignores_case() {
    let zone = DomainName::parse("Example.COM").unwrap();
    let name = DomainName::parse("www.eXample.com.").unwrap();
    assert!(zone.zone_of(&name));
}

#[test]
fn child_puts_a_label_in_front() {
    let root = DomainName::parse("internal").unwrap();
    let child = root.child(b"Counter").unwrap();
    assert_eq!(child, DomainName::parse("counter.internal").unwrap());
    assert!(root.child(b"").is_none());
    assert!(root.child(&[b'a'; 64]).is_none());
}

#[test]
fn child_is_refused_where_the_name_would_be_too_long() {
    let long = DomainName::from_labels(vec![
        vec![b'a'; 63],
        vec![b'b'; 63],
        vec![b'c'; 63],
        vec![b'd'; 55],
    ])
    .unwrap();
    assert_eq!(long.len(), 248);
    assert!(long.child(b"abcdef").is_some());
    assert!(long.child(b"counter").is_none());
}

#[test]
fn text_puts_a_dot_behind_each_label() {
    assert_eq!(DomainName::parse("Web.main.prod.internal").unwrap().text(), "web.main.prod.internal.");
    assert_eq!(DomainName::root().text(), "");
    assert_eq!(DomainName::root().full_text(), ".");
    assert_eq!(DomainName::parse("internal").unwrap().full_text(), "internal.");
}

#[test]
fn text_escapes_what_is_no_plain_character() {
    let name = DomainName::from_labels(vec![vec![b'a', b'.', b'b', b'\\', b' ', 0x00, 0xff, 0x7f, b'~']])
        .unwrap();
    assert_eq!(name.text(), "a\\.b\\\\\\032\\000\\255\\127~.");
}

#[test]
fn clone_copies_a_name() {
    let name = DomainName::parse("web.main.prod.internal").unwrap();
    assert_eq!(name.clone(), name);
}

#[test]
fn bytes_are_lowered_one_by_one() {
    assert_eq!(to_lower_byte(b'A'), b'a');
    assert_eq!(to_lower_byte(b'Z'), b'z');
    assert_eq!(to_lower_byte(b'@'), b'@');
    assert_eq!(to_lower_byte(b'['), b'[');
    assert_eq!(to_lower_byte(b'a'), b'a');
    assert_eq!(to_lower_bytes(b"Hello-World_9"), b"hello-world_9".to_vec());
    assert!(bytes_eq(b"abc", b"abc"));
    assert!(!bytes_eq(b"abc", b"abd"));
    assert!(!bytes_eq(b"abc", b"ab"));
}
