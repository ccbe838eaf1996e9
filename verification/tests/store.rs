//! The ledger store: totals, summaries, tag rollups, deduplication.

use costoflife::{cost_of_life, parse_amount, today, DataStore, TxRecord};
use std::str::FromStr;

#[test]
fn test_costoflife() {
    let txs = vec![
        TxRecord::new("Test#1", "10.2311321").unwrap(),
        TxRecord::new("Test#2", "10.5441231").unwrap(),
        TxRecord::new("Test#3", "70.199231321").unwrap(),
    ];
    assert_eq!(
        cost_of_life(&txs, &today()).unwrap(),
        parse_amount("90.97").unwrap()
    );
}

#[test]
fn test_datastore() {
    let mut ds = DataStore::new();
    // insert one entry
    ds.insert(&TxRecord::new("Test#1", "10").unwrap());
    ds.insert(&TxRecord::new("Test#2", "10").unwrap());
    // simple insert
    assert_eq!(
        ds.cost_of_life(&today()).unwrap(),
        parse_amount("20").unwrap()
    );
    // summary test
    let summary = ds.summary(&today());
    assert_eq!(summary.len(), 2);
    // test tags
    let mut ds = DataStore::new();
    ds.insert(&TxRecord::from_str("Test#1 10€ #tag1").unwrap());
    ds.insert(&TxRecord::from_str("Test#2 20€ #tag2").unwrap());
    ds.insert(&TxRecord::from_str("Test#3 50€ #tag3").unwrap());
    ds.insert(&TxRecord::from_str("Test#4 40€ #tag2").unwrap());
    let tags = ds.tags(&today()).unwrap();
    assert_eq!(tags.len(), 3);
    // tag2
    let got = &tags[0];
    assert_eq!(got.tag, "tag2");
    assert_eq!(got.count, 2);
    assert_eq!(got.total, parse_amount("60").unwrap());
    // tag3
    let got = &tags[1];
    assert_eq!(got.tag, "tag3");
    assert_eq!(got.count, 1);
    assert_eq!(got.total, parse_amount("50").unwrap());
    // tag1
    let got = &tags[2];
    assert_eq!(got.tag, "tag1");
    assert_eq!(got.count, 1);
    assert_eq!(got.total, parse_amount("10").unwrap());
    // test loading from stored lines
    let mut ds = DataStore::new();
    let lines = vec![
        "2021-01-03T19:36:43+00:00::2021-04-21::Mobile internet 9.99€ 210421 1w4x #internet",
        "2021-01-03T19:36:43+00:00::2018-01-01::Rent 1729€ 1m12x 010118 #rent",
        "not a stored line at all",
    ];
    for line in lines {
        if let Ok(tx) = TxRecord::from_string_record(line) {
            ds.insert(&tx);
        }
    }
    assert_eq!(ds.size(None), 2);
}

#[test]
fn test_dedup_by_identity() {
    // records that differ only in tags and timestamp share their digest:
    // the second insert replaces the first and the store keeps one entry
    let mut ds = DataStore::new();
    let a = TxRecord::from_str("Rent 1729€ 1m12x 010118 #rent").unwrap();
    let b = TxRecord::from_str("Rent 1729€ 1m12x 010118 #home #city").unwrap();
    let first = ds.insert(&a);
    assert!(first.is_none());
    let prev = ds.insert(&b);
    assert!(prev.is_some());
    assert_eq!(ds.size(None), 1);
    // the survivor carries the later tags
    assert!(!ds.tags(&costoflife::date(1, 6, 2018)).unwrap().is_empty());
}

#[test]
fn test_tag_rollup_figures() {
    // two ten-a-day records under one tag, one fifty-a-day under another
    let mut ds = DataStore::new();
    ds.insert(&TxRecord::from_str("one 10€ #tag2 010121").unwrap());
    ds.insert(&TxRecord::from_str("two 10€ #tag2 010121").unwrap());
    ds.insert(&TxRecord::from_str("three 50€ #tag3 010121").unwrap());
    let rows = ds.tags(&costoflife::date(1, 1, 2021)).unwrap();
    assert_eq!(rows.len(), 2);
    // fifty a day outranks twenty
    assert_eq!(rows[0].tag, "tag3");
    assert_eq!(rows[0].count, 1);
    assert_eq!(rows[0].total, parse_amount("50").unwrap());
    assert_eq!(rows[1].tag, "tag2");
    assert_eq!(rows[1].count, 2);
    assert_eq!(rows[1].total, parse_amount("20").unwrap());
}
