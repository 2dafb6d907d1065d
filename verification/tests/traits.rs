use aora::aomap::FileAoraMap;
use aora::aumap::FileAuraMap;
use aora::index::FileAoraIndex;
use aora::{AoraIndex, AoraMap, AuraMap, TransactionalMap};

const MAGIC: u64 = u64::from_be_bytes(*b"TRAITTST");

fn exercise_aora<M: AoraMap>(log: &mut M) {
    log.insert(1, &b"one".to_vec()).unwrap();
    assert!(log.contains_key(1));
    assert_eq!(log.get(1), Some(b"one".to_vec()));
    assert_eq!(log.get_expect(1), b"one".to_vec());
    log.extend(&vec![(2, b"two".to_vec())]).unwrap();
    assert_eq!(log.iter().len(), 2);
}

fn exercise_aura<M: AuraMap + TransactionalMap>(db: &mut M) {
    assert_eq!(db.transaction_count(), 0);
    db.insert_only(1, 10).unwrap();
    assert_eq!(db.commit_transaction(), Some(0));
    assert_eq!(db.transaction_count(), 1);
    db.update_only(1, 20).unwrap();
    db.insert_or_update(2, 30);
    assert_eq!(db.get_expect(1), 20);
    db.abort_transaction();
    assert_eq!(db.get(1), Some(10));
    assert_eq!(db.get(2), None);
    assert!(db.contains_key(1));
    assert_eq!(db.keys(), vec![1]);
    assert_eq!(db.transaction_keys(0).unwrap(), vec![1]);
    assert_eq!(db.display(), "aura_trait");
}

fn exercise_index<M: AoraIndex>(idx: &mut M) {
    idx.push(1, 10);
    idx.push(1, 10);
    idx.push(1, 20);
    assert_eq!(idx.value_len(1), 2);
    assert!(idx.contains_key(1));
    assert!(!idx.contains_key(2));
    assert_eq!(idx.get(1), vec![10, 20]);
    assert_eq!(idx.keys(), vec![1]);
}

#[test]
fn file_providers_implement_the_traits() {
    let mut log = FileAoraMap::create_new(
        MAGIC,
        1,
        "aora_trait".to_string(),
        "/tmp/aora_trait".to_string(),
    );
    exercise_aora(&mut log);

    let mut db = FileAuraMap::create_new(
        MAGIC,
        1,
        "aura_trait".to_string(),
        "/tmp/aura_trait.log".to_string(),
    );
    exercise_aura(&mut db);
    db.close().unwrap();

    let mut idx = FileAoraIndex::create_new(
        MAGIC,
        1,
        "index_trait".to_string(),
        "/tmp/index_trait.dat".to_string(),
    );
    exercise_index(&mut idx);
}
