use fbv::data::{check_header, header_bytes, HeaderCheck};
use fbv::index::{has_known_extension, sha256_hex};
use fbv::strs::split_ws;

#[test]
fn cache_header_roundtrip() {
    let h = header_bytes();
    assert_eq!(check_header(&h), HeaderCheck::Current);
    assert_eq!(&h[..4], b"FBVC");
    assert_eq!(check_header(&h[..5]), HeaderCheck::Torn);
    let mut bad = h.clone();
    bad[0] = b'X';
    assert_eq!(check_header(&bad), HeaderCheck::BadMagic);
    let mut stale = h.clone();
    stale[4] = stale[4].wrapping_add(1);
    assert_eq!(check_header(&stale), HeaderCheck::Stale);
}

#[test]
fn sha256_of_abc() {
    assert_eq!(
        sha256_hex(b"abc"),
        "ba7816bf8f01cfea414140de5dae2223b00361a396177a9cb410ff61f20015ad"
    );
}

#[test]
fn known_extensions() {
    assert!(has_known_extension("/lib/a/board.BRD"));
    assert!(has_known_extension("x.bvr3"));
    assert!(!has_known_extension("notes.txt"));
    assert!(!has_known_extension("noext"));
}

#[test]
fn whitespace_words() {
    assert_eq!(split_ws("  a\tb \u{3000} c  "), vec!["a", "b", "c"]);
    assert!(split_ws("   ").is_empty());
}

#[test]
fn trimmed_names_intern_once() {
    let mut b = fbv::builder::BoardBuilder::new();
    let a = b.net_id(" VBUS ");
    let c = b.net_id("VBUS");
    assert_eq!(a, c);
    assert_eq!(b.net_id("N/C"), fbv::model::NO_NET);
}
