use ostore::error::StoreError;
use ostore::identity::{identity_bytes, identity_from_bytes, identity_hex, object_path_parts};
use ostore::object::{digest_object, EntryKind, Object, TreeEntry};

fn blob(s: &str) -> Object {
    Object::blob(s.as_bytes().to_vec())
}

fn entry(name: &str, mode: u32, kind: EntryKind) -> TreeEntry {
    TreeEntry { name: name.as_bytes().to_vec(), mode, kind }
}

#[test]
fn digest_is_deterministic() {
    let a = blob("the same content");
    let b = blob("the same content");
    assert_eq!(digest_object(&a), digest_object(&a));
    assert_eq!(digest_object(&a), digest_object(&b));
}

#[test]
fn different_content_gets_different_identity() {
    assert_ne!(digest_object(&blob("one")), digest_object(&blob("two")));
    assert_ne!(digest_object(&blob("")), digest_object(&blob("a")));
}

#[test]
fn blob_and_tree_never_share_an_identity() {
    // an empty blob and an empty tree differ in the leading tag byte
    let b = blob("");
    let t = Object::tree(Vec::new());
    assert_ne!(digest_object(&b), digest_object(&t));
}

#[test]
fn reordered_tree_entries_hash_identically() {
    let id_a = digest_object(&blob("file a"));
    let id_b = digest_object(&blob("file b"));
    let forward = Object::tree(vec![
        entry("a.txt", 0o644, EntryKind::File(id_a)),
        entry("b.txt", 0o755, EntryKind::File(id_b)),
        entry("link", 0o777, EntryKind::Symlink(b"target".to_vec())),
    ]);
    let backward = Object::tree(vec![
        entry("link", 0o777, EntryKind::Symlink(b"target".to_vec())),
        entry("b.txt", 0o755, EntryKind::File(id_b)),
        entry("a.txt", 0o644, EntryKind::File(id_a)),
    ]);
    assert_eq!(forward, backward);
    assert_eq!(digest_object(&forward), digest_object(&backward));
}

#[test]
fn tree_entries_come_back_sorted_by_name() {
    let child = digest_object(&blob("c"));
    let t = Object::tree(vec![
        entry("zeta", 0o644, EntryKind::File(child)),
        entry("alpha", 0o644, EntryKind::File(child)),
        entry("mid", 0o755, EntryKind::Dir(child)),
    ]);
    let entries = t.as_tree().unwrap();
    let names: Vec<&[u8]> = entries.iter().map(|e| e.name.as_slice()).collect();
    assert_eq!(names, vec![b"alpha".as_slice(), b"mid".as_slice(), b"zeta".as_slice()]);
}

#[test]
fn tree_digest_depends_on_metadata() {
    let child = digest_object(&blob("payload"));
    let with_644 = Object::tree(vec![entry("f", 0o644, EntryKind::File(child))]);
    let with_755 = Object::tree(vec![entry("f", 0o755, EntryKind::File(child))]);
    assert_ne!(digest_object(&with_644), digest_object(&with_755));

    let as_file = Object::tree(vec![entry("f", 0o644, EntryKind::File(child))]);
    let as_dir = Object::tree(vec![entry("f", 0o644, EntryKind::Dir(child))]);
    assert_ne!(digest_object(&as_file), digest_object(&as_dir));
}

#[test]
fn blob_encoding_is_tag_then_bytes() {
    let o = Object::blob(vec![1, 2, 3]);
    assert_eq!(ostore::object::encode_object(&o), vec![0, 1, 2, 3]);
}

#[test]
fn tree_encoding_is_exact() {
    // one symlink entry: name "a", mode 420, target "t"
    let t = Object::tree(vec![entry("a", 420, EntryKind::Symlink(b"t".to_vec()))]);
    let expected = vec![
        1u8, // tree tag
        97,  // name "a"
        0,   // name terminator
        0, 0, 1, 164, // mode 420, big-endian
        2,   // symlink tag
        116, // target "t"
        0,   // target terminator
    ];
    assert_eq!(ostore::object::encode_object(&t), expected);
}

#[test]
fn identity_encoding_round_trips() {
    let id = digest_object(&blob("round trip"));
    let bytes = identity_bytes(&id);
    assert_eq!(bytes.len(), 32);
    assert_eq!(identity_from_bytes(&bytes).unwrap(), id);
}

#[test]
fn identity_decode_rejects_wrong_length() {
    assert_eq!(identity_from_bytes(&vec![]).unwrap_err(), StoreError::Corrupt);
    assert_eq!(identity_from_bytes(&vec![0u8; 31]).unwrap_err(), StoreError::Corrupt);
    assert_eq!(identity_from_bytes(&vec![0u8; 33]).unwrap_err(), StoreError::Corrupt);
}

#[test]
fn identity_hex_is_64_lowercase_digits() {
    let id = digest_object(&blob("hex me"));
    let hex = identity_hex(&id);
    assert_eq!(hex.len(), 64);
    assert!(hex.iter().all(|c| c.is_ascii_hexdigit() && !c.is_ascii_uppercase()));
}

#[test]
fn hex_encoding_matches_bytes() {
    let id = digest_object(&blob("check digits"));
    let bytes = identity_bytes(&id);
    let hex = identity_hex(&id);
    let rendered: Vec<u8> = bytes
        .iter()
        .flat_map(|b| format!("{:02x}", b).into_bytes())
        .collect();
    assert_eq!(hex, rendered);
}

#[test]
fn object_path_splits_shard_prefix() {
    let id = digest_object(&blob("sharded"));
    let (shard, rest) = object_path_parts(&id);
    assert_eq!(shard.len(), 2);
    assert_eq!(rest.len(), 62);
    let mut joined = shard.clone();
    joined.extend_from_slice(&rest);
    assert_eq!(joined, identity_hex(&id));
}
