use dedupe::digest::{content_digest, to_lower_hex, DigestStream};
use dedupe::index::{FileRecord, Index};
use dedupe::resolve::{parse_choice, parse_index, paths_to_delete, plan_group, trim, Choice, Outcome};
use dedupe::walk::{Entry, Scan};

const HELLO_SHA512: &str = "9b71d224bd62f3785d96d46ad3ea3d73319bfbc2890caadae2dff72519673ca72323c3d99ba5c11d7c7acc6e14b8c5da0c4663475c2e5c3adef46f73bcdec043";
const EMPTY_SHA512: &str = "cf83e1357eefb8bdf1542850d66d8007d620e4050b5715dc83f4a921d36ce9ce47d0d13c5d85f2b0ff8318d2877eec2f63b931bd47417a81a538327af927da3e";

fn file(path: &str, content: &str) -> Entry {
    let mut stream = DigestStream::new();
    stream.update(content.as_bytes());
    Entry::File { path: path.to_string(), content: stream }
}

fn dir(path: &str) -> Entry {
    Entry::Directory { path: path.to_string() }
}

fn strings(v: &[&str]) -> Vec<String> {
    v.iter().map(|s| s.to_string()).collect()
}

#[test]
fn digest_of_known_contents() {
    assert_eq!(content_digest(b"hello"), HELLO_SHA512);
    assert_eq!(content_digest(b""), EMPTY_SHA512);
}

#[test]
fn digest_is_lowercase_hex_of_fixed_length() {
    let d = content_digest(b"some file content");
    assert_eq!(d.len(), 128);
    assert!(d.chars().all(|c| c.is_ascii_digit() || ('a'..='f').contains(&c)));
}

#[test]
fn equal_content_gives_equal_digest() {
    assert_eq!(content_digest(b"same bytes"), content_digest(b"same bytes"));
}

#[test]
fn one_differing_byte_gives_different_digest() {
    assert_ne!(content_digest(b"hello"), content_digest(b"hellp"));
    assert_ne!(content_digest(b"hello"), content_digest(b"world"));
}

#[test]
fn hex_rendering() {
    assert_eq!(to_lower_hex(&[0x00, 0xab, 0xff, 0x10]), "00abff10");
    assert_eq!(to_lower_hex(&[]), "");
}

fn hello_index() -> Index {
    let mut idx = Index::new();
    idx.insert("root/a.txt".to_string(), content_digest(b"hello"));
    idx.insert("root/b.txt".to_string(), content_digest(b"hello"));
    idx.insert("root/c.txt".to_string(), content_digest(b"world"));
    idx
}

#[test]
fn groups_only_shared_digests() {
    let idx = hello_index();
    let groups = idx.duplicate_groups();
    assert_eq!(groups.len(), 1);
    assert_eq!(groups[0].digest, HELLO_SHA512);
    assert_eq!(groups[0].members, strings(&["root/a.txt", "root/b.txt"]));
}

#[test]
fn empty_index_has_no_groups() {
    assert!(Index::new().duplicate_groups().is_empty());
}

#[test]
fn groups_keep_first_occurrence_order_and_record_order() {
    let idx = Index::from_records(vec![
        FileRecord::new("x1".to_string(), "dd".to_string()),
        FileRecord::new("y1".to_string(), "ee".to_string()),
        FileRecord::new("z".to_string(), "ff".to_string()),
        FileRecord::new("x2".to_string(), "dd".to_string()),
        FileRecord::new("y2".to_string(), "ee".to_string()),
        FileRecord::new("x3".to_string(), "dd".to_string()),
    ]);
    let groups = idx.duplicate_groups();
    assert_eq!(groups.len(), 2);
    assert_eq!(groups[0].digest, "dd");
    assert_eq!(groups[0].members, strings(&["x1", "x2", "x3"]));
    assert_eq!(groups[1].digest, "ee");
    assert_eq!(groups[1].members, strings(&["y1", "y2"]));
}

#[test]
fn paths_for_digest_in_record_order() {
    let idx = hello_index();
    assert_eq!(idx.paths_for(&HELLO_SHA512.to_string()), strings(&["root/a.txt", "root/b.txt"]));
    assert_eq!(idx.paths_for(&"nothing".to_string()), Vec::<String>::new());
}

#[test]
fn delete_record_removes_only_that_path() {
    let mut idx = hello_index();
    idx.delete_record(&"root/a.txt".to_string());
    assert_eq!(idx.len(), 2);
    assert_eq!(idx.record(0).path, "root/b.txt");
    assert_eq!(idx.record(1).path, "root/c.txt");
    assert!(idx.duplicate_groups().is_empty());
}

#[test]
fn reset_empties_the_index() {
    let mut idx = hello_index();
    idx.reset();
    assert_eq!(idx.len(), 0);
}

#[test]
fn streamed_digest_matches_whole_content() {
    let mut stream = DigestStream::new();
    stream.update(b"hel");
    stream.update(b"");
    stream.update(b"lo");
    assert_eq!(stream.finish(), HELLO_SHA512);
    assert_eq!(DigestStream::new().finish(), EMPTY_SHA512);
}

#[test]
fn scan_is_depth_first_in_listing_order() {
    let mut old = Index::new();
    old.insert("stale".to_string(), "00".to_string());
    let mut scan = Scan::new("root".to_string(), old);
    assert_eq!(scan.next_directory(), Some("root".to_string()));
    scan.push_listing(vec![
        file("root/a.txt", "hello"),
        dir("root/sub"),
        Entry::Other { path: "root/link".to_string() },
        file("root/z.txt", "zzz"),
    ]);
    assert_eq!(scan.next_directory(), Some("root/sub".to_string()));
    scan.push_listing(vec![dir("root/sub/deeper"), file("root/sub/s.txt", "s")]);
    assert!(!scan.is_done());
    assert_eq!(scan.next_directory(), Some("root/sub/deeper".to_string()));
    scan.push_listing(vec![file("root/sub/deeper/d.txt", "deep")]);
    assert_eq!(scan.next_directory(), None);
    assert!(scan.is_done());
    let idx = scan.finish();
    let paths: Vec<String> = (0..idx.len()).map(|i| idx.record(i).path.clone()).collect();
    assert_eq!(
        paths,
        strings(&["root/a.txt", "root/sub/deeper/d.txt", "root/sub/s.txt", "root/z.txt"])
    );
    assert_eq!(idx.record(0).digest, HELLO_SHA512);
}

#[test]
fn scan_of_empty_root_records_nothing() {
    let mut scan = Scan::new("root".to_string(), Index::new());
    assert_eq!(scan.next_directory(), Some("root".to_string()));
    scan.push_listing(vec![]);
    assert_eq!(scan.next_directory(), None);
    assert_eq!(scan.finish().len(), 0);
}

#[test]
fn hello_world_scenario() {
    let mut scan = Scan::new("root".to_string(), Index::new());
    assert_eq!(scan.next_directory(), Some("root".to_string()));
    scan.push_listing(vec![
        file("root/a.txt", "hello"),
        file("root/b.txt", "hello"),
        file("root/c.txt", "world"),
    ]);
    assert_eq!(scan.next_directory(), None);
    let mut idx = scan.finish();
    assert_eq!(idx.len(), 3);
    let mut digests: Vec<String> = (0..idx.len()).map(|i| idx.record(i).digest.clone()).collect();
    digests.sort();
    digests.dedup();
    assert_eq!(digests.len(), 2);

    let groups = idx.duplicate_groups();
    assert_eq!(groups.len(), 1);
    assert_eq!(groups[0].digest, HELLO_SHA512);
    assert_eq!(groups[0].members.len(), 2);

    match plan_group(&groups[0].members, "1") {
        Outcome::Resolved { keep, delete } => {
            assert_eq!(keep, 1);
            assert_eq!(groups[0].members[keep], "root/b.txt");
            assert_eq!(delete, strings(&["root/a.txt"]));
            idx.delete_records(&delete);
        }
        _ => panic!("expected a resolution"),
    }
    assert_eq!(idx.len(), 2);
    assert_eq!(idx.record(0).path, "root/b.txt");
    assert_eq!(idx.record(1).path, "root/c.txt");
    assert!(idx.duplicate_groups().is_empty());
}

#[test]
fn keep_one_deletes_all_others() {
    let members = strings(&["p0", "p1", "p2", "p3"]);
    assert_eq!(paths_to_delete(&members, 2), strings(&["p0", "p1", "p3"]));
    assert_eq!(paths_to_delete(&members, 0), strings(&["p1", "p2", "p3"]));
    assert_eq!(paths_to_delete(&members, 3), strings(&["p0", "p1", "p2"]));
}

#[test]
fn a_repeated_kept_path_is_never_deleted() {
    let members = strings(&["p0", "p1", "p0", "p2"]);
    assert_eq!(paths_to_delete(&members, 2), strings(&["p1", "p2"]));
    match plan_group(&members, "0") {
        Outcome::Resolved { keep, delete } => {
            assert_eq!(keep, 0);
            assert_eq!(delete, strings(&["p1", "p2"]));
        }
        _ => panic!("expected a resolution"),
    }
}

#[test]
fn delete_records_removes_every_listed_path() {
    let mut idx = hello_index();
    idx.delete_records(&strings(&["root/c.txt", "root/a.txt", "missing"]));
    assert_eq!(idx.len(), 1);
    assert_eq!(idx.record(0).path, "root/b.txt");
}

#[test]
fn skip_leaves_group_unchanged() {
    let members = strings(&["p0", "p1", "p2"]);
    assert!(matches!(plan_group(&members, "skip"), Outcome::Unchanged));
    assert!(matches!(plan_group(&members, "  skip\n"), Outcome::Unchanged));
}

#[test]
fn invalid_answers_ask_again() {
    let members = strings(&["p0", "p1"]);
    for answer in ["", "2", "abc", "-1", "1.0", "Skip", "s kip", "+", "99999999999999999999999"] {
        assert!(matches!(plan_group(&members, answer), Outcome::Retry), "{answer:?}");
    }
}

#[test]
fn answers_are_read_after_trimming() {
    assert_eq!(parse_choice(" 0 \n", 2), Choice::Keep(0));
    assert_eq!(parse_choice("+1", 2), Choice::Keep(1));
    assert_eq!(parse_choice("\tskip\r\n", 2), Choice::Skip);
    assert_eq!(parse_choice("1 0", 20), Choice::Invalid);
    assert_eq!(parse_choice("3", 3), Choice::Invalid);
}

#[test]
fn trim_takes_off_surrounding_space_only() {
    assert_eq!(trim("  a b \n"), "a b");
    assert_eq!(trim(" \t\n"), "");
    assert_eq!(trim("x"), "x");
    assert_eq!(trim("\u{3000}y\u{a0}"), "y");
}

#[test]
fn index_parsing_matches_std() {
    for s in ["0", "7", "+12", "007", "18446744073709551615", "18446744073709551616", "", "+", "-0", "1a", "++1"] {
        assert_eq!(parse_index(s), s.parse::<usize>().ok(), "{s:?}");
    }
}
