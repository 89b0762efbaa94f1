use file_index::digest::{compute_hash, to_hex};
use file_index::discover::{visit_entry, Visit};

#[test]
fn hex_of_bytes() {
    assert_eq!(to_hex(&[]), "");
    assert_eq!(to_hex(&[0x00]), "00");
    assert_eq!(to_hex(&[0x0f, 0xf0, 0xa5]), "0ff0a5");
    assert_eq!(to_hex(&[0x01, 0x23, 0x45, 0x67, 0x89, 0xab, 0xcd, 0xef]), "0123456789abcdef");
    assert_eq!(to_hex(&[0xff, 0x10]), "ff10");
}

#[test]
fn digest_of_known_contents() {
    assert_eq!(compute_hash(b""), "d41d8cd98f00b204e9800998ecf8427e");
    assert_eq!(compute_hash(b"hello world"), "5eb63bbbe01eeed093cb22bb8f5acdc3");
    assert_eq!(compute_hash(b"abc"), "900150983cd24fb0d6963f7d28e17f72");
}

#[test]
fn digest_depends_on_content_alone() {
    let long = vec![7u8; 200_000];
    assert_eq!(compute_hash(&long), compute_hash(&long.clone()));
    assert_ne!(compute_hash(b"a"), compute_hash(b"b"));
    assert_eq!(compute_hash(&long).len(), 32);
}

#[test]
fn walk_rule() {
    assert_eq!(visit_entry(true, "sub", false), Visit::Descend);
    assert_eq!(visit_entry(true, ".git", false), Visit::Descend);
    assert_eq!(visit_entry(true, ".git", true), Visit::Descend);
    assert_eq!(visit_entry(false, "file.txt", false), Visit::Take);
    assert_eq!(visit_entry(false, "file.txt", true), Visit::Take);
    assert_eq!(visit_entry(false, ".hidden", false), Visit::Skip);
    assert_eq!(visit_entry(false, ".hidden", true), Visit::Take);
    assert_eq!(visit_entry(false, "", false), Visit::Take);
    assert_eq!(visit_entry(false, "a.b", false), Visit::Take);
}
