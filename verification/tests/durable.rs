use std::collections::BTreeMap;
use std::ops::Bound;
use webimint::durable::{
    decode_entries, decode_entries_descending, decode_value, prefix_range, Cleanup, KeyRange, Phase,
};
use webimint::error::StoreError;
use webimint::hex::hex_encode;

fn stored(keys: &[&[u8]]) -> BTreeMap<String, String> {
    let mut store = BTreeMap::new();
    for (i, key) in keys.iter().enumerate() {
        store.insert(hex_encode(key), hex_encode(&[i as u8]));
    }
    store
}

fn query(store: &BTreeMap<String, String>, range: &KeyRange) -> Vec<(String, String)> {
    let upper = match &range.upper {
        Some(end) => Bound::Excluded(end.clone()),
        None => Bound::Unbounded,
    };
    store
        .range((Bound::Included(range.lower.clone()), upper))
        .map(|(k, v)| (k.clone(), v.clone()))
        .collect()
}

#[test]
fn prefix_range_runs_from_prefix_to_its_bound() {
    let range = prefix_range(&[0x10]);
    assert_eq!(range.lower, "10");
    assert_eq!(range.upper, Some("11".to_string()));
    let range = prefix_range(&[0x2f]);
    assert_eq!(range.lower, "2f");
    assert_eq!(range.upper, Some("30".to_string()));
    let range = prefix_range(&[0x10, 0xff]);
    assert_eq!(range.lower, "10ff");
    assert_eq!(range.upper, Some("11".to_string()));
    let range = prefix_range(&[0x09]);
    assert_eq!(range.lower, "09");
    assert_eq!(range.upper, Some("0a".to_string()));
}

#[test]
fn prefix_range_without_bound_is_open_ended() {
    let range = prefix_range(&[0xff]);
    assert_eq!(range.lower, "ff");
    assert_eq!(range.upper, None);
    let range = prefix_range(&[]);
    assert_eq!(range.lower, "");
    assert_eq!(range.upper, None);
    let range = prefix_range(&[0xff, 0xff]);
    assert_eq!(range.lower, "ffff");
    assert_eq!(range.upper, None);
}

#[test]
fn range_query_finds_exactly_the_keys_under_the_prefix() {
    let store = stored(&[&[0x10], &[0x10, 0x01], &[0x11], &[0x20]]);
    let raw = query(&store, &prefix_range(&[0x10]));
    assert_eq!(
        decode_entries(&raw),
        Ok(vec![(vec![0x10], vec![0]), (vec![0x10, 0x01], vec![1])])
    );
    assert_eq!(
        decode_entries_descending(&raw),
        Ok(vec![(vec![0x10, 0x01], vec![1]), (vec![0x10], vec![0])])
    );
}

#[test]
fn range_query_with_trailing_max_bytes() {
    let keys: Vec<&[u8]> = vec![
        &[0x10, 0xfe],
        &[0x10, 0xff],
        &[0x10, 0xff, 0x00],
        &[0x11],
        &[0x11, 0x00],
        &[0xff],
        &[0xff, 0x01],
    ];
    let store = stored(&keys);
    let found = decode_entries(&query(&store, &prefix_range(&[0x10, 0xff]))).unwrap();
    let found_keys: Vec<Vec<u8>> = found.into_iter().map(|e| e.0).collect();
    assert_eq!(found_keys, vec![vec![0x10, 0xff], vec![0x10, 0xff, 0x00]]);
    let found = decode_entries(&query(&store, &prefix_range(&[0xff]))).unwrap();
    let found_keys: Vec<Vec<u8>> = found.into_iter().map(|e| e.0).collect();
    assert_eq!(found_keys, vec![vec![0xff], vec![0xff, 0x01]]);
    let found = decode_entries(&query(&store, &prefix_range(&[]))).unwrap();
    assert_eq!(found.len(), 7);
}

#[test]
fn range_query_agrees_with_starts_with() {
    let keys: Vec<Vec<u8>> = vec![
        vec![],
        vec![0x00],
        vec![0x09, 0xff],
        vec![0x0a],
        vec![0x0f, 0xff],
        vec![0x10],
        vec![0x9f],
        vec![0x9f, 0xff, 0xff],
        vec![0xa0],
        vec![0xa0, 0x00],
        vec![0xff, 0xfe],
        vec![0xff, 0xff],
    ];
    let refs: Vec<&[u8]> = keys.iter().map(|k| k.as_slice()).collect();
    let store = stored(&refs);
    let prefixes: Vec<Vec<u8>> = vec![
        vec![],
        vec![0x00],
        vec![0x09],
        vec![0x09, 0xff],
        vec![0x0f],
        vec![0x0f, 0xff],
        vec![0x9f],
        vec![0x9f, 0xff],
        vec![0xa0],
        vec![0xff],
        vec![0xff, 0xff],
        vec![0x55],
    ];
    for prefix in &prefixes {
        let found = decode_entries(&query(&store, &prefix_range(prefix))).unwrap();
        let found_keys: Vec<Vec<u8>> = found.into_iter().map(|e| e.0).collect();
        let expected: Vec<Vec<u8>> =
            keys.iter().filter(|k| k.starts_with(prefix)).cloned().collect();
        assert_eq!(found_keys, expected);
    }
}

#[test]
fn decode_entries_keeps_the_order_of_the_answer() {
    let raw = vec![
        ("20".to_string(), "04".to_string()),
        ("10".to_string(), "".to_string()),
        ("".to_string(), "AbCd".to_string()),
    ];
    assert_eq!(
        decode_entries(&raw),
        Ok(vec![(vec![0x20], vec![4]), (vec![0x10], vec![]), (vec![], vec![0xab, 0xcd])])
    );
    assert_eq!(
        decode_entries_descending(&raw),
        Ok(vec![(vec![], vec![0xab, 0xcd]), (vec![0x10], vec![]), (vec![0x20], vec![4])])
    );
    assert_eq!(decode_entries(&vec![]), Ok(vec![]));
    assert_eq!(decode_entries_descending(&vec![]), Ok(vec![]));
}

#[test]
fn decode_entries_reports_corrupt_text() {
    let bad_key = vec![("10".to_string(), "01".to_string()), ("1".to_string(), "02".to_string())];
    assert_eq!(decode_entries(&bad_key), Err(StoreError::CorruptEntry));
    assert_eq!(decode_entries_descending(&bad_key), Err(StoreError::CorruptEntry));
    let bad_value = vec![("10".to_string(), "zz".to_string())];
    assert_eq!(decode_entries(&bad_value), Err(StoreError::CorruptEntry));
    assert_eq!(decode_entries_descending(&bad_value), Err(StoreError::CorruptEntry));
}

#[test]
fn decode_value_reads_what_was_stored() {
    assert_eq!(decode_value(None), Ok(None));
    assert_eq!(decode_value(Some("")), Ok(Some(vec![])));
    assert_eq!(decode_value(Some("01")), Ok(Some(vec![1])));
    assert_eq!(decode_value(Some("00ff")), Ok(Some(vec![0, 0xff])));
    assert_eq!(decode_value(Some("0")), Err(StoreError::CorruptEntry));
    assert_eq!(decode_value(Some("not hex")), Err(StoreError::CorruptEntry));
}

#[test]
fn open_transaction_can_be_used_and_committed_once() {
    let phase = Phase::begin();
    assert_eq!(phase, Phase::Open);
    assert_eq!(phase.check_open(), Ok(()));
    let committed = phase.commit();
    assert_eq!(committed, Ok(Phase::Committed));
    let phase = committed.unwrap();
    assert_eq!(phase.check_open(), Err(StoreError::TransactionFinished));
    assert_eq!(phase.commit(), Err(StoreError::TransactionFinished));
}

#[test]
fn dropping_an_open_transaction_owes_an_abort() {
    assert_eq!(Phase::begin().on_drop(), Cleanup::Abort);
    assert_eq!(Phase::Open.on_drop(), Cleanup::Abort);
}

#[test]
fn dropping_a_committed_transaction_owes_nothing() {
    assert_eq!(Phase::begin().commit().unwrap().on_drop(), Cleanup::Nothing);
    assert_eq!(Phase::Committed.on_drop(), Cleanup::Nothing);
}

/// An object store in memory that keeps the writes of a transaction apart
/// until the transaction is committed.
struct TextStore {
    committed: BTreeMap<String, String>,
}

struct TextTransaction<'a> {
    store: &'a mut TextStore,
    written: BTreeMap<String, String>,
    phase: Phase,
}

impl TextStore {
    fn begin(&mut self) -> TextTransaction<'_> {
        TextTransaction { store: self, written: BTreeMap::new(), phase: Phase::begin() }
    }
}

impl<'a> TextTransaction<'a> {
    fn insert(&mut self, key: &[u8], value: &[u8]) -> Option<Vec<u8>> {
        self.phase.check_open().unwrap();
        let old = self.get(key);
        self.written.insert(hex_encode(key), hex_encode(value));
        old
    }

    fn get(&self, key: &[u8]) -> Option<Vec<u8>> {
        self.phase.check_open().unwrap();
        let text = hex_encode(key);
        let stored = self.written.get(&text).or_else(|| self.store.committed.get(&text));
        decode_value(stored.map(|s| s.as_str())).unwrap()
    }

    fn commit(&mut self) {
        self.phase = self.phase.commit().unwrap();
        let written = std::mem::take(&mut self.written);
        self.store.committed.extend(written);
    }

    /// What the handle does when it goes away; says whether it aborted.
    fn finish(mut self) -> bool {
        match self.phase.on_drop() {
            Cleanup::Abort => {
                self.written.clear();
                true
            }
            Cleanup::Nothing => false,
        }
    }
}

#[test]
fn write_without_commit_is_gone_in_the_next_transaction() {
    let mut store = TextStore { committed: BTreeMap::new() };
    let mut tx = store.begin();
    assert_eq!(tx.insert(&[0x2f], &[0x01]), None);
    assert_eq!(tx.get(&[0x2f]), Some(vec![0x01]));
    assert!(tx.finish());
    let tx = store.begin();
    assert_eq!(tx.get(&[0x2f]), None);
}

#[test]
fn write_with_commit_is_there_in_the_next_transaction() {
    let mut store = TextStore { committed: BTreeMap::new() };
    let mut tx = store.begin();
    assert_eq!(tx.insert(&[0x2f], &[0x01]), None);
    assert_eq!(tx.insert(&[0x2f], &[0x02]), Some(vec![0x01]));
    tx.commit();
    assert!(!tx.finish());
    let tx = store.begin();
    assert_eq!(tx.get(&[0x2f]), Some(vec![0x02]));
    assert_eq!(store.committed.get("2f"), Some(&"02".to_string()));
}
