use ostore::error::{PublishOutcome, StoreError};
use ostore::object::{digest_object, Object};
use ostore::store::{valid_ref_name, ObjectStore, TempDir};

fn blob(s: &str) -> Object {
    Object::blob(s.as_bytes().to_vec())
}

fn name(s: &str) -> Vec<u8> {
    s.as_bytes().to_vec()
}

#[test]
fn put_then_get_returns_same_content() {
    let mut store = ObjectStore::new();
    let content = blob("hello");
    let expected = blob("hello");
    let id = store.put(content, 100).unwrap();
    assert!(store.has(&id));
    let got = store.get(&id).unwrap();
    assert_eq!(*got, expected);
    assert_eq!(got.as_blob().unwrap().as_slice(), b"hello");
}

#[test]
fn get_missing_is_not_found() {
    let mut store = ObjectStore::new();
    let id = store.put(blob("present"), 0).unwrap();
    let other = digest_object(&blob("absent"));
    assert!(!store.has(&other));
    assert_eq!(store.get(&other).unwrap_err(), StoreError::NotFound);
    assert!(store.has(&id));
}

#[test]
fn repeated_put_converges_on_one_object() {
    let mut store = ObjectStore::new();
    let id1 = store.put(blob("same bytes"), 1).unwrap();
    let count_after_first = store.enumerate().len();
    let id2 = store.put(blob("same bytes"), 2).unwrap();
    assert_eq!(id1, id2);
    assert_eq!(store.enumerate().len(), count_after_first);
    assert_eq!(count_after_first, 1);
}

#[test]
fn publish_reports_dedup_as_already_exists() {
    let mut store = ObjectStore::new();
    let id = store.put(blob("racy content"), 0).unwrap();

    let obj = blob("racy content");
    let same_id = digest_object(&obj);
    assert_eq!(same_id, id);
    let mut h = store.begin(5).unwrap();
    h.write(obj);
    assert_eq!(store.publish(h, same_id), PublishOutcome::AlreadyExists);
    assert_eq!(store.enumerate().len(), 1);
    assert_eq!(*store.get(&id).unwrap(), blob("racy content"));
}

#[test]
fn publish_stores_new_content() {
    let mut store = ObjectStore::new();
    let obj = blob("fresh");
    let id = digest_object(&obj);
    let mut h = store.begin(7).unwrap();
    assert!(!store.has(&id));
    h.write(obj);
    assert_eq!(store.publish(h, id), PublishOutcome::Stored);
    assert!(store.has(&id));
}

#[test]
fn ref_set_twice_last_writer_wins() {
    let mut store = ObjectStore::new();
    let id1 = store.put(blob("v1"), 0).unwrap();
    let id2 = store.put(blob("v2"), 1).unwrap();
    store.ref_set(name("latest"), id1);
    store.ref_set(name("latest"), id2);
    assert_eq!(store.ref_get(&name("latest")).unwrap(), id2);
}

#[test]
fn ref_set_leaves_other_names_alone() {
    let mut store = ObjectStore::new();
    let id1 = store.put(blob("one"), 0).unwrap();
    let id2 = store.put(blob("two"), 1).unwrap();
    store.ref_set(name("a"), id1);
    store.ref_set(name("b"), id2);
    store.ref_set(name("a"), id2);
    assert_eq!(store.ref_get(&name("a")).unwrap(), id2);
    assert_eq!(store.ref_get(&name("b")).unwrap(), id2);
}

#[test]
fn delete_removes_name_but_not_object() {
    let mut store = ObjectStore::new();
    let id = store.put(blob("kept content"), 0).unwrap();
    store.ref_set(name("tag"), id);
    assert!(store.ref_delete(&name("tag")).is_ok());
    assert_eq!(store.ref_get(&name("tag")).unwrap_err(), StoreError::NotFound);
    assert!(store.has(&id));
    assert_eq!(*store.get(&id).unwrap(), blob("kept content"));
}

#[test]
fn delete_missing_ref_is_not_found() {
    let mut store = ObjectStore::new();
    assert_eq!(store.ref_delete(&name("nothing")).unwrap_err(), StoreError::NotFound);
    assert_eq!(store.ref_get(&name("nothing")).unwrap_err(), StoreError::NotFound);
}

#[test]
fn ref_list_shows_every_binding() {
    let mut store = ObjectStore::new();
    let id1 = store.put(blob("x"), 0).unwrap();
    let id2 = store.put(blob("y"), 1).unwrap();
    store.ref_set(name("first"), id1);
    store.ref_set(name("second"), id2);
    let listing = store.ref_list();
    assert_eq!(listing.len(), 2);
    assert!(listing.iter().any(|r| r.name == name("first") && r.id == id1));
    assert!(listing.iter().any(|r| r.name == name("second") && r.id == id2));
}

#[test]
fn abandoned_handle_publishes_nothing() {
    let mut store = ObjectStore::new();
    let obj = blob("never published");
    let id = digest_object(&obj);
    let mut h = store.begin(10).unwrap();
    h.write(obj);
    drop(h);
    assert!(!store.has(&id));
    assert_eq!(store.get(&id).unwrap_err(), StoreError::NotFound);
}

#[test]
fn sweep_removes_only_entries_past_grace() {
    let mut store = ObjectStore::new();
    let old_handle = store.begin(100).unwrap();
    let young_handle = store.begin(950).unwrap();
    let old_token = old_handle.token();
    let young_token = young_handle.token();
    drop(old_handle);
    drop(young_handle);
    assert_eq!(store.staging_tokens().len(), 2);

    // started within the grace threshold of both: removes neither
    store.sweep(1000, 900);
    let tokens = store.staging_tokens();
    assert!(tokens.contains(&old_token));
    assert!(tokens.contains(&young_token));

    // past the old entry's threshold, within the young one's
    store.sweep(1000, 100);
    let tokens = store.staging_tokens();
    assert!(!tokens.contains(&old_token));
    assert!(tokens.contains(&young_token));
}

#[test]
fn sweep_at_exact_threshold_keeps_entry() {
    let mut store = ObjectStore::new();
    let h = store.begin(100).unwrap();
    let token = h.token();
    drop(h);
    // age is exactly the grace threshold: never removed
    store.sweep(200, 100);
    assert!(store.staging_tokens().contains(&token));
    store.sweep(201, 100);
    assert!(!store.staging_tokens().contains(&token));
}

#[test]
fn discard_unregisters_handle() {
    let mut store = ObjectStore::new();
    let h = store.begin(3).unwrap();
    let token = h.token();
    assert!(store.staging_tokens().contains(&token));
    store.discard(h);
    assert!(!store.staging_tokens().contains(&token));
}

#[test]
fn handle_reports_token_and_creation_time() {
    let h = TempDir::create_at(42, 7);
    assert_eq!(h.token(), 42);
    assert_eq!(h.created_at(), 7);
}

#[test]
fn enumerate_lists_each_identity_once() {
    let mut store = ObjectStore::new();
    let id1 = store.put(blob("alpha"), 0).unwrap();
    let id2 = store.put(blob("beta"), 1).unwrap();
    store.put(blob("alpha"), 2).unwrap();
    let ids = store.enumerate();
    assert_eq!(ids.len(), 2);
    assert!(ids.contains(&id1));
    assert!(ids.contains(&id2));
}

#[test]
fn ref_name_validation() {
    assert!(valid_ref_name(&name("latest")));
    assert!(valid_ref_name(&name("release-1.2")));
    assert!(valid_ref_name(&name("...")));
    assert!(!valid_ref_name(&name("")));
    assert!(!valid_ref_name(&name(".")));
    assert!(!valid_ref_name(&name("..")));
    assert!(!valid_ref_name(&name("a/b")));
    assert!(!valid_ref_name(&vec![b'a', 0, b'b']));
}

#[test]
fn scenario_put_ref_and_dedup() {
    let mut store = ObjectStore::new();
    let h = store.put(blob("hello"), 0).unwrap();
    assert_eq!(store.get(&h).unwrap().as_blob().unwrap().as_slice(), b"hello");
    store.ref_set(name("latest"), h);
    assert_eq!(store.ref_get(&name("latest")).unwrap(), h);
    let count_before = store.enumerate().len();
    let h2 = store.put(blob("hello"), 99).unwrap();
    assert_eq!(h2, h);
    assert_eq!(store.enumerate().len(), count_before);
}
