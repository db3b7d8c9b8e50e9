use kvstore::lex_lt_bytes;
use kvstore::bytes_eq;
use kvstore::sort_rows;
use kvstore::starts_with;
use kvstore::DBRow;
use kvstore::DB;

fn row(k: &[u8], v: &[u8]) -> DBRow {
    DBRow { key: k.to_vec(), value: v.to_vec() }
}

fn keys_of(rows: &[DBRow]) -> Vec<Vec<u8>> {
    let mut out = Vec::new();
    for r in rows {
        out.push(r.key.clone());
    }
    out
}

#[test]
fn round_trip_single_row() {
    let mut db = DB::open();
    db.write(vec![row(&[0x00, 0xff, 7], &[1, 2, 3])]);
    let got = db.get(&[0x00, 0xff, 7]);
    assert_eq!(got, Some(vec![1, 2, 3]));
}

#[test]
fn get_never_written_key_is_absent() {
    let mut db = DB::open();
    assert_eq!(db.get(b"missing"), None);
    db.write(vec![row(b"present", b"1")]);
    assert_eq!(db.get(b"missing"), None);
    assert_eq!(db.get(b"presen"), None);
    assert_eq!(db.get(b"presentx"), None);
}

#[test]
fn scan_concrete_scenario() {
    let mut db = DB::open();
    db.write(vec![row(b"a", b"1"), row(b"ab", b"2"), row(b"b", b"3")]);

    let r = db.scan(b"a");
    assert_eq!(r.len(), 2);
    assert_eq!(r[0].key, b"a".to_vec());
    assert_eq!(r[0].value, b"1".to_vec());
    assert_eq!(r[1].key, b"ab".to_vec());
    assert_eq!(r[1].value, b"2".to_vec());

    let all = db.scan(b"");
    assert_eq!(keys_of(&all), vec![b"a".to_vec(), b"ab".to_vec(), b"b".to_vec()]);
    assert_eq!(all[2].value, b"3".to_vec());

    let none = db.scan(b"c");
    assert_eq!(none.len(), 0);
}

#[test]
fn empty_prefix_scan_is_everything_in_strict_order() {
    let mut db = DB::open();
    db.write(vec![row(b"pear", b"3"), row(b"apple", b"1"), row(b"zebra", b"4"), row(
        b"app",
        b"0",
    )]);
    db.write(vec![row(b"banana", b"2")]);
    let all = db.scan(b"");
    assert_eq!(all.len(), 5);
    for w in all.windows(2) {
        assert!(lex_lt_bytes(&w[0].key, &w[1].key));
    }
    assert_eq!(
        keys_of(&all),
        vec![
            b"app".to_vec(),
            b"apple".to_vec(),
            b"banana".to_vec(),
            b"pear".to_vec(),
            b"zebra".to_vec()
        ]
    );
}

#[test]
fn scan_prefix_membership() {
    let mut db = DB::open();
    db.write(vec![
        row(b"ap", b"1"),
        row(b"app", b"2"),
        row(b"apple", b"3"),
        row(b"apply", b"4"),
        row(b"banana", b"5"),
    ]);
    let r = db.scan(b"app");
    assert_eq!(keys_of(&r), vec![b"app".to_vec(), b"apple".to_vec(), b"apply".to_vec()]);
    for got in &r {
        assert!(starts_with(&got.key, b"app"));
    }
}

#[test]
fn duplicate_keys_in_one_batch_last_wins() {
    let mut db = DB::open();
    db.write(vec![
        row(b"k", b"first"),
        row(b"other", b"x"),
        row(b"k", b"second"),
        row(b"k", b"third"),
    ]);
    assert_eq!(db.get(b"k"), Some(b"third".to_vec()));
    assert_eq!(db.get(b"other"), Some(b"x".to_vec()));
    let all = db.scan(b"");
    assert_eq!(all.len(), 2);
}

#[test]
fn overwrite_across_batches() {
    let mut db = DB::open();
    db.write(vec![row(b"k", b"old")]);
    db.write(vec![row(b"k", b"new")]);
    assert_eq!(db.get(b"k"), Some(b"new".to_vec()));
    let all = db.scan(b"");
    assert_eq!(all.len(), 1);
    assert_eq!(all[0].value, b"new".to_vec());
}

#[test]
fn batch_is_visible_as_a_whole() {
    let mut db = DB::open();
    let batch = vec![
        row(b"e1", b"v1"),
        row(b"e2", b"v2"),
        row(b"e3", b"v3"),
        row(b"e4", b"v4"),
        row(b"e5", b"v5"),
    ];
    db.write(batch);
    for i in 1..=5u8 {
        let k = vec![b'e', b'0' + i];
        let v = vec![b'v', b'0' + i];
        assert_eq!(db.get(&k), Some(v));
    }
    assert_eq!(db.scan(b"").len(), 5);
}

#[test]
fn compact_all_is_idempotent() {
    let mut db = DB::open();
    db.write(vec![row(b"a", b"1"), row(b"c", b"3"), row(b"b", b"2")]);
    let before = keys_of(&db.scan(b""));
    db.compact_all();
    let after_once = db.scan(b"");
    db.compact_all();
    let after_twice = db.scan(b"");
    assert_eq!(keys_of(&after_once), before);
    assert_eq!(keys_of(&after_twice), before);
    assert_eq!(after_twice[0].value, b"1".to_vec());
    assert_eq!(after_twice[1].value, b"2".to_vec());
    assert_eq!(after_twice[2].value, b"3".to_vec());
}

#[test]
fn empty_store_scans_empty() {
    let db = DB::open();
    assert_eq!(db.scan(b"").len(), 0);
    assert_eq!(db.scan(b"x").len(), 0);
}

#[test]
fn empty_batch_changes_nothing() {
    let mut db = DB::open();
    db.write(vec![row(b"a", b"1")]);
    db.write(Vec::new());
    assert_eq!(db.get(b"a"), Some(b"1".to_vec()));
    assert_eq!(db.scan(b"").len(), 1);
}

#[test]
fn sort_rows_orders_by_key_and_keeps_equal_keys_stable() {
    let sorted = sort_rows(vec![
        row(b"b", b"b1"),
        row(b"a", b"a1"),
        row(b"b", b"b2"),
        row(b"a", b"a2"),
    ]);
    assert_eq!(sorted.len(), 4);
    assert_eq!(sorted[0].key, b"a".to_vec());
    assert_eq!(sorted[0].value, b"a1".to_vec());
    assert_eq!(sorted[1].key, b"a".to_vec());
    assert_eq!(sorted[1].value, b"a2".to_vec());
    assert_eq!(sorted[2].key, b"b".to_vec());
    assert_eq!(sorted[2].value, b"b1".to_vec());
    assert_eq!(sorted[3].key, b"b".to_vec());
    assert_eq!(sorted[3].value, b"b2".to_vec());
}

#[test]
fn lex_order_on_bytes() {
    assert!(lex_lt_bytes(b"", b"a"));
    assert!(!lex_lt_bytes(b"a", b""));
    assert!(!lex_lt_bytes(b"", b""));
    assert!(lex_lt_bytes(b"a", b"ab"));
    assert!(!lex_lt_bytes(b"ab", b"a"));
    assert!(lex_lt_bytes(b"ab", b"b"));
    assert!(!lex_lt_bytes(b"b", b"ab"));
    assert!(!lex_lt_bytes(b"a", b"a"));
    assert!(lex_lt_bytes(&[0x01], &[0xff]));
    assert!(!lex_lt_bytes(&[0xff], &[0x01]));
}

#[test]
fn prefix_and_equality_on_bytes() {
    assert!(starts_with(b"apple", b""));
    assert!(starts_with(b"apple", b"app"));
    assert!(starts_with(b"apple", b"apple"));
    assert!(!starts_with(b"apple", b"apples"));
    assert!(!starts_with(b"apple", b"b"));
    assert!(bytes_eq(b"", b""));
    assert!(bytes_eq(b"abc", b"abc"));
    assert!(!bytes_eq(b"abc", b"abd"));
    assert!(!bytes_eq(b"abc", b"ab"));
}
