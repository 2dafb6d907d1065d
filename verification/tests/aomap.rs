use aora::aomap::FileAoraMap;
use aora::errors::Violation;

const MAGIC: u64 = u64::from_be_bytes(*b"AORATEST");

fn new_log(name: &str) -> FileAoraMap {
    FileAoraMap::create_new(MAGIC, 1, name.to_string(), format!("/tmp/{name}"))
}

#[test]
fn insert_then_get() {
    let mut log = new_log("insert_then_get");
    assert!(!log.contains_key(1));
    assert_eq!(log.get(1), None);

    log.insert(1, &b"hello".to_vec()).unwrap();
    assert!(log.contains_key(1));
    assert_eq!(log.get(1), Some(b"hello".to_vec()));
    assert_eq!(log.get_expect(1), b"hello".to_vec());

    log.insert(2, &b"world, long enough to differ".to_vec()).unwrap();
    assert_eq!(log.get(1), Some(b"hello".to_vec()));
    assert_eq!(log.get(2), Some(b"world, long enough to differ".to_vec()));
}

#[test]
fn insert_is_idempotent() {
    let mut log = new_log("idempotent");
    log.insert(7, &b"same".to_vec()).unwrap();
    let before = log.log_image();
    // Re-inserting the identical value is a no-op and does not error
    log.insert(7, &b"same".to_vec()).unwrap();
    assert_eq!(log.log_image(), before);
    assert_eq!(log.get(7), Some(b"same".to_vec()));
}

#[test]
fn conflicting_insert_fails() {
    let mut log = new_log("conflict");
    log.insert(7, &b"first".to_vec()).unwrap();
    let err = log.insert(7, &b"other".to_vec()).unwrap_err();
    assert!(matches!(err, Violation::BlobConflict { key: 7, .. }));
    assert_eq!(
        err.message(),
        "the item under key 0700000000000000 is different from another item under the same key \
         already present in the table 'conflict'"
    );
    // The conflicting write changed nothing
    assert_eq!(log.get(7), Some(b"first".to_vec()));
}

#[test]
fn extend_applies_pairs_in_order() {
    let mut log = new_log("extend");
    log.extend(&vec![
        (1, b"one".to_vec()),
        (2, b"two".to_vec()),
        (1, b"one".to_vec()),
    ])
    .unwrap();
    assert_eq!(log.get(1), Some(b"one".to_vec()));
    assert_eq!(log.get(2), Some(b"two".to_vec()));

    // A conflict stops the batch but keeps everything before it
    let err = log
        .extend(&vec![(3, b"three".to_vec()), (2, b"not two".to_vec()), (4, b"four".to_vec())])
        .unwrap_err();
    assert!(matches!(err, Violation::BlobConflict { key: 2, .. }));
    assert_eq!(log.get(3), Some(b"three".to_vec()));
    assert_eq!(log.get(4), None);
}

#[test]
fn iter_yields_insertion_order() {
    let mut log = new_log("iter");
    log.insert(5, &b"a".to_vec()).unwrap();
    log.insert(3, &b"bb".to_vec()).unwrap();
    log.insert(9, &Vec::new()).unwrap();
    log.insert(4, &b"dddd".to_vec()).unwrap();
    let items = log.iter();
    assert_eq!(
        items,
        vec![
            (5, b"a".to_vec()),
            (3, b"bb".to_vec()),
            (9, Vec::new()),
            (4, b"dddd".to_vec()),
        ]
    );
}

#[test]
fn empty_blob_is_kept() {
    let mut log = new_log("empty_blob");
    log.insert(1, &Vec::new()).unwrap();
    log.insert(2, &b"x".to_vec()).unwrap();
    assert_eq!(log.get(1), Some(Vec::new()));
    assert_eq!(log.get(2), Some(b"x".to_vec()));
}

#[test]
fn images_round_trip() {
    let mut log = new_log("round_trip");
    log.insert(1, &b"alpha".to_vec()).unwrap();
    log.insert(2, &b"om".to_vec()).unwrap();
    log.insert(3, &b"very last one".to_vec()).unwrap();

    let again = FileAoraMap::open(
        log.log_image(),
        log.idx_image(),
        MAGIC,
        1,
        "round_trip".to_string(),
        "/tmp/round_trip".to_string(),
    )
    .unwrap();
    assert_eq!(again.get(1), Some(b"alpha".to_vec()));
    assert_eq!(again.get(2), Some(b"om".to_vec()));
    assert_eq!(again.get(3), Some(b"very last one".to_vec()));
    assert_eq!(again.iter(), log.iter());
    assert_eq!(again.log_image(), log.log_image());
    assert_eq!(again.idx_image(), log.idx_image());
}

#[test]
fn header_bytes_are_fixed() {
    let log = new_log("header");
    assert_eq!(log.log_image(), b"AORATEST\0\x01".to_vec());
    assert_eq!(log.idx_image(), b"AORATEST\0\x01".to_vec());
}

#[test]
fn torn_index_is_rejected() {
    let mut log = new_log("torn");
    log.insert(1, &b"payload".to_vec()).unwrap();
    let idx = log.idx_image();
    // A crash between data append and index append leaves the index short
    // of a whole record: replaying it must not silently succeed.
    for cut in 1..16 {
        let torn = idx[..idx.len() - cut].to_vec();
        let res = FileAoraMap::open(
            log.log_image(),
            torn,
            MAGIC,
            1,
            "torn".to_string(),
            "/tmp/torn".to_string(),
        );
        assert!(res.is_err(), "torn index ({cut} bytes short) went unnoticed");
    }
}

#[test]
fn mismatched_offsets_are_rejected() {
    let mut log = new_log("offsets");
    log.insert(1, &b"abc".to_vec()).unwrap();
    let mut idx = log.idx_image();
    // Point the record past the end of the data payload
    let n = idx.len();
    idx[n - 8] = 0xff;
    let res = FileAoraMap::open(
        log.log_image(),
        idx,
        MAGIC,
        1,
        "offsets".to_string(),
        "/tmp/offsets".to_string(),
    );
    assert!(res.is_err());
}

#[test]
fn wrong_log_magic_is_rejected() {
    let log = new_log("wrong_magic");
    let res = FileAoraMap::open(
        log.log_image(),
        log.idx_image(),
        u64::from_be_bytes(*b"SOMEELSE"),
        1,
        "wrong_magic".to_string(),
        "/tmp/wrong_magic".to_string(),
    );
    assert!(res.is_err());
}

#[test]
fn image_layouts_are_exact() {
    let mut log = new_log("layout");
    log.insert(1, &b"ab".to_vec()).unwrap();
    log.insert(2, &b"c".to_vec()).unwrap();
    let expected_log = [b"AORATEST\0\x01".as_slice(), b"ab", b"c"].concat();
    assert_eq!(log.log_image(), expected_log);
    let expected_idx = [
        b"AORATEST\0\x01".as_slice(),
        &1u64.to_le_bytes(), // first key
        &2u64.to_le_bytes(), // where its blob ends in the payload
        &2u64.to_le_bytes(), // second key
        &3u64.to_le_bytes(), // where its blob ends in the payload
    ]
    .concat();
    assert_eq!(log.idx_image(), expected_idx);
}

#[test]
fn log_truncation_is_detected() {
    let mut log = new_log("log_cut");
    log.insert(1, &b"abc".to_vec()).unwrap();
    log.insert(2, &b"defg".to_vec()).unwrap();
    let image = log.log_image();
    // Cutting any number of payload bytes breaks the exact end alignment
    for cut in 10..image.len() {
        let shorter = image[..cut].to_vec();
        let res = FileAoraMap::open(
            shorter,
            log.idx_image(),
            MAGIC,
            1,
            "log_cut".to_string(),
            "/tmp/log_cut".to_string(),
        );
        assert!(res.is_err(), "log truncation to {cut} bytes went unnoticed");
    }
}

#[test]
fn orphan_data_is_detected() {
    let mut log = new_log("orphan");
    log.insert(1, &b"abc".to_vec()).unwrap();
    // A write that reached the data file but crashed before reaching the
    // index leaves trailing bytes no record accounts for.
    let mut image = log.log_image();
    image.extend_from_slice(b"torn");
    let res = FileAoraMap::open(
        image,
        log.idx_image(),
        MAGIC,
        1,
        "orphan".to_string(),
        "/tmp/orphan".to_string(),
    );
    assert!(res.is_err());
}

#[test]
fn whole_record_index_truncation_is_detected() {
    let mut log = new_log("record_cut");
    log.insert(1, &b"abc".to_vec()).unwrap();
    log.insert(2, &b"d".to_vec()).unwrap();
    let idx = log.idx_image();
    // Dropping the newest whole record leaves the kept one ending short of
    // the payload.
    let torn = idx[..idx.len() - 16].to_vec();
    let res = FileAoraMap::open(
        log.log_image(),
        torn,
        MAGIC,
        1,
        "record_cut".to_string(),
        "/tmp/record_cut".to_string(),
    );
    assert!(res.is_err());
}
