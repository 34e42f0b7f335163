use beatmap_tools::reconcile::CatalogEntry;
use beatmap_tools::reconcile::ReplayRecord;
use beatmap_tools::reconcile::ScoreBucket;
use beatmap_tools::reconcile::build_collection;
use beatmap_tools::reconcile::check_sorted_by_key;
use beatmap_tools::reconcile::import_score;
use beatmap_tools::reconcile::merge_catalog_entry;

fn entry(key: Option<&[u8]>, handle: usize) -> CatalogEntry {
    CatalogEntry { key: key.map(|k| k.to_vec()), handle, ratings: Vec::new() }
}

fn bucket(key: Option<&[u8]>, handles: &[usize]) -> ScoreBucket {
    ScoreBucket {
        key: key.map(|k| k.to_vec()),
        scores: handles.iter().map(|h| ReplayRecord { key: None, handle: *h }).collect(),
    }
}

#[test]
fn merge_inserts_between_sorted_keys() {
    // Target [{key: A}, {key: C}], candidate {key: B}: inserted at index 1,
    // producing [A, B, C].
    let mut target = vec![entry(Some(b"A"), 0), entry(Some(b"C"), 1)];
    assert!(check_sorted_by_key(&target));
    let added = merge_catalog_entry(&mut target, entry(Some(b"B"), 2));
    assert!(added);
    assert_eq!(target.len(), 3);
    assert_eq!(target[0].key.as_deref(), Some(b"A".as_slice()));
    assert_eq!(target[1].key.as_deref(), Some(b"B".as_slice()));
    assert_eq!(target[2].key.as_deref(), Some(b"C".as_slice()));
    assert!(check_sorted_by_key(&target));
}

#[test]
fn merge_present_key_never_duplicates() {
    let mut target = vec![entry(Some(b"A"), 0), entry(Some(b"C"), 1)];
    let added = merge_catalog_entry(&mut target, entry(Some(b"B"), 2));
    assert!(added);
    // A second candidate with key A is found, never inserted again.
    let added = merge_catalog_entry(&mut target, entry(Some(b"A"), 3));
    assert!(!added);
    assert_eq!(target.len(), 3);
    assert_eq!(target[0].handle, 0);
}

#[test]
fn merge_present_key_twice_is_idempotent() {
    // Reconciling an already-present key twice leaves length and content
    // unchanged after the second call.
    let mut target = vec![entry(Some(b"A"), 0), entry(Some(b"B"), 1)];
    let first = merge_catalog_entry(&mut target, entry(Some(b"B"), 9));
    let len_after_first = target.len();
    let second = merge_catalog_entry(&mut target, entry(Some(b"B"), 9));
    assert!(!first);
    assert!(!second);
    assert_eq!(target.len(), len_after_first);
    assert_eq!(target[1].handle, 1);
}

#[test]
fn merge_keyless_candidate_is_always_inserted() {
    // A record without a hash is never matched, even against another
    // keyless record; it sorts before every present key.
    let mut target = vec![entry(None, 0), entry(Some(b"A"), 1)];
    let added = merge_catalog_entry(&mut target, entry(None, 2));
    assert!(added);
    assert_eq!(target.len(), 3);
    assert_eq!(target[0].key, None);
    assert_eq!(target[1].key, None);
    assert!(check_sorted_by_key(&target));
}

#[test]
fn import_appends_to_matched_bucket() {
    let mut buckets = vec![bucket(Some(b"m1"), &[10]), bucket(Some(b"m2"), &[20])];
    let rec = ReplayRecord { key: Some(b"r1".to_vec()), handle: 30 };
    let added = import_score(&mut buckets, Some(b"m1".to_vec()), rec);
    assert!(added);
    assert_eq!(buckets.len(), 2);
    assert_eq!(buckets[0].scores.len(), 2);
    assert_eq!(buckets[0].scores[1].handle, 30);
}

#[test]
fn import_new_chart_makes_new_bucket() {
    let mut buckets = vec![bucket(Some(b"m1"), &[10])];
    let rec = ReplayRecord { key: Some(b"r1".to_vec()), handle: 30 };
    let added = import_score(&mut buckets, Some(b"m0".to_vec()), rec);
    assert!(added);
    assert_eq!(buckets.len(), 2);
    assert_eq!(buckets[0].key.as_deref(), Some(b"m0".as_slice()));
    assert_eq!(buckets[0].scores.len(), 1);
    assert_eq!(buckets[0].scores[0].handle, 30);
    assert!(check_sorted_by_key(&buckets));
}

#[test]
fn import_same_replay_twice_is_idempotent() {
    // The round trip: importing the same play a second time finds its hash
    // in the bucket and changes nothing.
    let mut buckets: Vec<ScoreBucket> = Vec::new();
    let rec = ReplayRecord { key: Some(b"r1".to_vec()), handle: 30 };
    let first = import_score(&mut buckets, Some(b"m1".to_vec()), rec);
    let rec = ReplayRecord { key: Some(b"r1".to_vec()), handle: 30 };
    let second = import_score(&mut buckets, Some(b"m1".to_vec()), rec);
    assert!(first);
    assert!(!second);
    assert_eq!(buckets.len(), 1);
    assert_eq!(buckets[0].scores.len(), 1);
}

#[test]
fn import_distinct_replays_share_bucket() {
    let mut buckets: Vec<ScoreBucket> = Vec::new();
    let added = import_score(
        &mut buckets,
        Some(b"m1".to_vec()),
        ReplayRecord { key: Some(b"r1".to_vec()), handle: 1 },
    );
    assert!(added);
    let added = import_score(
        &mut buckets,
        Some(b"m1".to_vec()),
        ReplayRecord { key: Some(b"r2".to_vec()), handle: 2 },
    );
    assert!(added);
    assert_eq!(buckets.len(), 1);
    assert_eq!(buckets[0].scores.len(), 2);
}

#[test]
fn collection_holds_every_present_key_in_order() {
    let catalog = vec![
        entry(Some(b"m1"), 0),
        entry(None, 1),
        entry(Some(b"m2"), 2),
    ];
    let c = build_collection(&catalog, Some(b"All maps".to_vec()));
    assert_eq!(c.name.as_deref(), Some(b"All maps".as_slice()));
    assert_eq!(c.hashes.len(), 2);
    assert_eq!(c.hashes[0].as_deref(), Some(b"m1".as_slice()));
    assert_eq!(c.hashes[1].as_deref(), Some(b"m2".as_slice()));
}

#[test]
fn merge_orders_prefix_keys_first() {
    // Byte-lexicographic order: a proper prefix sorts before its extension.
    let mut target = vec![entry(Some(b"A"), 0), entry(Some(b"AB"), 1)];
    assert!(check_sorted_by_key(&target));
    let added = merge_catalog_entry(&mut target, entry(Some(b"AA"), 2));
    assert!(added);
    assert_eq!(target[0].key.as_deref(), Some(b"A".as_slice()));
    assert_eq!(target[1].key.as_deref(), Some(b"AA".as_slice()));
    assert_eq!(target[2].key.as_deref(), Some(b"AB".as_slice()));
}

#[test]
fn sortedness_check_rejects_descending_keys() {
    let target = vec![entry(Some(b"C"), 0), entry(Some(b"A"), 1)];
    assert!(!check_sorted_by_key(&target));
    let empty: Vec<CatalogEntry> = Vec::new();
    assert!(check_sorted_by_key(&empty));
}
