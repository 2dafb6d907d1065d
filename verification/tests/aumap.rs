use std::collections::HashSet;

use aora::aumap::FileAuraMap;
use aora::errors::Violation;

const MAGIC: u64 = u64::from_be_bytes(*b"DUMBTEST");

fn new_db(name: &str) -> FileAuraMap {
    FileAuraMap::create_new(MAGIC, 1, name.to_string(), format!("/tmp/{name}.log"))
}

fn reopen(db: &FileAuraMap, name: &str) -> FileAuraMap {
    FileAuraMap::open(db.save(), MAGIC, 1, name.to_string(), format!("/tmp/{name}.log")).unwrap()
}

fn key_set(keys: Vec<u64>) -> HashSet<u64> {
    keys.into_iter().collect()
}

fn normal_ops(db: &mut FileAuraMap) {
    // Newly created db is empty
    assert_eq!(db.keys().len(), 0);

    // No unknown keys
    assert_eq!(db.get(1), None);

    // Insert op
    db.insert_only(0, 1).unwrap();
    // It got there
    assert_eq!(db.get_expect(0), 1);
    // Idempotence
    assert_eq!(db.get_expect(0), 1);

    // Still no unknown keys
    assert_eq!(db.get(1), None);

    // Update op
    db.update_only(0, 2).unwrap();
    // It got updated
    assert_eq!(db.get_expect(0), 2);

    // Update or insert op
    db.insert_or_update(0, 3);
    // It got updated
    assert_eq!(db.get_expect(0), 3);

    // Still no unknown keys
    assert_eq!(db.get(1), None);

    // Update or insert op with a new key
    db.insert_or_update(1, 4);
    // It got there
    assert_eq!(db.get_expect(1), 4);
    // The previous key hasn't gone
    assert_eq!(db.get_expect(0), 3);

    // We have two keys at the end
    assert_eq!(db.keys().len(), 2);
}

#[test]
fn abort() {
    let mut db = new_db("abort");

    normal_ops(&mut db);
    db.abort_transaction();

    // Check that now we are empty
    assert_eq!(db.get(1), None);
    assert_eq!(db.get(0), None);
    assert_eq!(db.keys().len(), 0);
    assert_eq!(db.transaction_count(), 0);

    let data = db.save();
    assert_eq!(data, b"DUMBTEST\0\x01\0\0\0\0\0\0\0\0".to_vec());
}

#[test]
fn empty_commit() {
    let mut db = new_db("dir");

    // No pending transaction
    assert_eq!(db.commit_transaction(), None);
}

#[test]
fn commit() {
    let mut db = new_db("commit");

    normal_ops(&mut db);
    assert_eq!(db.commit_transaction(), Some(0));

    // Check that commitment hasn't changed anything
    assert_eq!(db.get_expect(1), 4);
    assert_eq!(db.get_expect(0), 3);
    assert_eq!(key_set(db.keys()), HashSet::from([0, 1]));

    // Check that transaction information is value
    assert_eq!(db.transaction_count(), 1);
    assert_eq!(key_set(db.transaction_keys(0).unwrap()), HashSet::from([0, 1]));

    // Insert another item
    db.insert_only(3, 5).unwrap();
    assert_eq!(db.commit_transaction(), Some(1));
    assert_eq!(db.transaction_count(), 2);
    assert_eq!(key_set(db.transaction_keys(0).unwrap()), HashSet::from([0, 1]));
    assert_eq!(key_set(db.transaction_keys(1).unwrap()), HashSet::from([3]));

    let _ = db.save();

    // Check that commitment hasn't changed anything
    assert_eq!(db.get_expect(1), 4);
    assert_eq!(db.get_expect(0), 3);
    assert_eq!(key_set(db.keys()), HashSet::from([0, 1, 3]));

    // Check that transaction information is value
    assert_eq!(db.transaction_count(), 2);
    assert_eq!(key_set(db.transaction_keys(0).unwrap()), HashSet::from([0, 1]));
    assert_eq!(key_set(db.transaction_keys(1).unwrap()), HashSet::from([3]));

    let db = reopen(&db, "commit");

    // Check that commitment hasn't changed anything
    assert_eq!(db.get_expect(1), 4);
    assert_eq!(db.get_expect(0), 3);
    assert_eq!(key_set(db.keys()), HashSet::from([0, 1, 3]));

    // Check that transaction information is value
    assert_eq!(db.transaction_count(), 2);
    assert_eq!(key_set(db.transaction_keys(0).unwrap()), HashSet::from([0, 1]));
    assert_eq!(key_set(db.transaction_keys(1).unwrap()), HashSet::from([3]));
}

#[test]
fn insert_same() {
    let mut db = new_db("insert_same");

    db.insert_only(0, 1).unwrap();
    db.insert_only(0, 1).unwrap();
    assert_eq!(db.commit_transaction(), Some(0));

    db.insert_only(0, 1).unwrap();
    assert_eq!(db.commit_transaction(), None);

    assert_eq!(db.transaction_count(), 1);
}

#[test]
fn unique_keys() {
    let mut db = new_db("unique_keys");

    db.insert_only(0, 1).unwrap();
    assert_eq!(db.commit_transaction(), Some(0));

    let err = db.insert_only(0, 2).unwrap_err();
    assert!(matches!(err, Violation::KeyConflict { .. }));
    assert_eq!(
        err.message(),
        "failed to insert-only key 0000000000000000 which is already present in the table \
         'unique_keys' (old value=0100000000000000, attempted new value=0200000000000000)"
    );
    // The conflicting write left nothing behind
    assert_eq!(db.get_expect(0), 1);
    assert_eq!(db.commit_transaction(), None);
}

#[test]
fn drop_uncommitted() {
    let mut db = new_db("drop_uncommitted");
    normal_ops(&mut db);
    let err = db.close().unwrap_err();
    assert!(matches!(err, Violation::UncommittedPending { .. }));
    assert_eq!(
        err.message(),
        "the latest transaction in the table 'drop_uncommitted' must be committed before closing"
    );
}

#[test]
fn update_unknown_key() {
    let mut db = new_db("update_unknown");
    let err = db.update_only(7, 1).unwrap_err();
    assert!(matches!(err, Violation::UnknownKey { key: 7, .. }));
    assert_eq!(
        err.message(),
        "failed to update non-existing key 0700000000000000 in the table 'update_unknown'"
    );
    db.close().unwrap();
}

#[test]
fn unknown_transaction() {
    let mut db = new_db("unknown_txn");
    db.insert_only(1, 2).unwrap();
    assert_eq!(db.commit_transaction(), Some(0));
    assert!(db.transaction_keys(0).is_ok());
    let err = db.transaction_keys(1).unwrap_err();
    assert!(matches!(err, Violation::UnknownTransaction { txno: 1, .. }));
}

#[test]
fn abort_preserves_committed() {
    let mut db = new_db("abort_committed");
    db.insert_only(1, 10).unwrap();
    assert_eq!(db.commit_transaction(), Some(0));

    db.insert_or_update(1, 20);
    db.insert_or_update(2, 30);
    assert_eq!(db.get_expect(1), 20);
    db.abort_transaction();

    // Aborted writes are invisible; committed state is untouched
    assert_eq!(db.get(1), Some(10));
    assert_eq!(db.get(2), None);
    assert_eq!(key_set(db.keys()), HashSet::from([1]));
    assert_eq!(db.transaction_count(), 1);
}

#[test]
fn pending_wins_over_committed() {
    let mut db = new_db("pending_wins");
    db.insert_or_update(5, 1);
    assert_eq!(db.commit_transaction(), Some(0));
    db.insert_or_update(5, 2);
    // The pending write decides before any committed page
    assert_eq!(db.get_expect(5), 2);
    assert_eq!(db.commit_transaction(), Some(1));
    assert_eq!(db.get_expect(5), 2);
}

#[test]
fn durability_round_trip() {
    let mut db = new_db("durable");
    db.insert_or_update(1, 11);
    db.insert_or_update(2, 22);
    assert_eq!(db.commit_transaction(), Some(0));
    db.insert_or_update(2, 33);
    assert_eq!(db.commit_transaction(), Some(1));

    let again = reopen(&db, "durable");
    assert_eq!(again.get(1), db.get(1));
    assert_eq!(again.get(2), db.get(2));
    assert_eq!(key_set(again.keys()), key_set(db.keys()));
    assert_eq!(again.transaction_count(), db.transaction_count());
    assert_eq!(
        again.transaction_keys(0).unwrap(),
        db.transaction_keys(0).unwrap()
    );
    assert_eq!(
        again.transaction_keys(1).unwrap(),
        db.transaction_keys(1).unwrap()
    );
    // And the rewritten image is identical byte for byte
    assert_eq!(again.save(), db.save());
}

#[test]
fn truncation_is_detected() {
    let mut db = new_db("truncated");
    db.insert_or_update(1, 11);
    db.insert_or_update(2, 22);
    assert_eq!(db.commit_transaction(), Some(0));
    db.insert_or_update(3, 33);
    assert_eq!(db.commit_transaction(), Some(1));

    let image = db.save();
    // Removing any number of trailing bytes must be reported as corruption
    for cut in 0..image.len() {
        let shorter = image[..cut].to_vec();
        let res = FileAuraMap::open(
            shorter,
            MAGIC,
            1,
            "truncated".to_string(),
            "/tmp/truncated.log".to_string(),
        );
        assert!(res.is_err(), "truncation to {cut} bytes went unnoticed");
    }
}

#[test]
fn wrong_magic_is_rejected() {
    let db = new_db("magic");
    let image = db.save();
    let res = FileAuraMap::open(
        image,
        u64::from_be_bytes(*b"OTHERFMT"),
        1,
        "magic".to_string(),
        "/tmp/magic.log".to_string(),
    );
    let err = match res {
        Ok(_) => panic!("open accepted a wrong format tag"),
        Err(e) => e,
    };
    assert_eq!(
        err.message(),
        "the file of table 'magic' at '/tmp/magic.log' is corrupted"
    );
}

#[test]
fn dump_mirrors_state() {
    let mut db = new_db("dump");
    db.insert_or_update(1, 2);
    assert_eq!(db.commit_transaction(), Some(0));
    db.insert_or_update(3, 4);
    let dump = db.to_dump();
    assert_eq!(dump.on_disk, vec![vec![(1, 2)]]);
    assert_eq!(dump.pending, vec![(3, 4)]);
    db.abort_transaction();
}

#[test]
fn aumap_image_layout_is_exact() {
    let mut db = new_db("layout");
    db.insert_only(1, 2).unwrap();
    assert_eq!(db.commit_transaction(), Some(0));
    let expected = [
        b"DUMBTEST\0\x01".as_slice(),
        &1u64.to_le_bytes(), // page count
        &1u64.to_le_bytes(), // key count of page 0
        &1u64.to_le_bytes(), // key
        &2u64.to_le_bytes(), // value
    ]
    .concat();
    assert_eq!(db.save(), expected);
}

#[test]
fn trailing_bytes_are_detected() {
    let mut db = new_db("trailing");
    db.insert_or_update(1, 11);
    assert_eq!(db.commit_transaction(), Some(0));

    // A commit that appended its page bytes but crashed before the page
    // count was patched leaves bytes the count does not account for.
    let mut image = db.save();
    image.extend_from_slice(&1u64.to_le_bytes());
    image.extend_from_slice(&2u64.to_le_bytes());
    image.extend_from_slice(&22u64.to_le_bytes());
    let res = FileAuraMap::open(
        image,
        MAGIC,
        1,
        "trailing".to_string(),
        "/tmp/trailing.log".to_string(),
    );
    assert!(res.is_err());
}
