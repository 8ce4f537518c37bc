use skaidb_engine::bytes::{
    bytes_below, fnv1a, prefix_upper_bound, push_le32, push_le64, read_le32, read_le64,
};
use skaidb_engine::entry_range::{
    cover_range, index_entry_key, index_prefix_n, index_upper_bound_n, scan_range,
};
use skaidb_engine::error::EngineError;
use skaidb_engine::gidx::{
    gidx_entry_key, gidx_entry_row_key, gidx_placement_prefix, gidx_probe_bounds,
};
use skaidb_engine::hlc::Hlc;
use skaidb_engine::journal::{decode_txn_journal, encode_txn_journal, TxnWrites};
use skaidb_engine::namespace::{
    belongs_to, display_name, gidx_index, gidx_table, is_gidx_table, is_system_table, qualify, split,
};
use skaidb_engine::plan::{Cover, IndexPlan, ScanPlan};
use skaidb_engine::sorted_map::{RowId, SortedMap};
use skaidb_engine::text::{
    decimal_of, eq_ignore_case, join, parse_i64, parse_unsigned, signed_decimal_of, split_once,
    str_lt, strip_prefix, to_lower,
};
use skaidb_engine::txn::{gather_with_overlay, TxnState};
use skaidb_engine::value::Value;
use skaidb_engine::watermarks::AppliedWatermarks;

fn s(x: &str) -> String {
    x.to_string()
}

#[test]
fn stamps_order_by_physical_then_logical_time() {
    let a = Hlc::new(1, 9);
    let b = Hlc::new(2, 0);
    let c = Hlc::new(2, 1);
    assert!(a.before(b) && b.before(c) && a.before(c));
    assert!(!b.before(b) && !c.before(b));
    assert_eq!(a.later(c), c);
    assert_eq!(c.later(a), c);
    assert_eq!(Hlc::min(), Hlc::new(0, 0));
    assert!(Hlc::min().before(a));
}

#[test]
fn names_are_qualified_and_split_back() {
    assert_eq!(qualify("default", "t"), "t");
    assert_eq!(qualify("shop", "t"), "shop\u{1f}t");
    assert_eq!(split("shop\u{1f}t"), ("shop".to_string(), "t".to_string()));
    assert_eq!(split("t"), ("default".to_string(), "t".to_string()));
    assert_eq!(split(&qualify("a", "b\u{1f}c")), ("a".to_string(), "b\u{1f}c".to_string()));
    assert!(belongs_to("shop\u{1f}t", "shop"));
    assert!(belongs_to("t", "default"));
    assert!(!belongs_to("t", "shop"));
    assert_eq!(display_name("shop\u{1f}t", "shop"), "t");
}

#[test]
fn reserved_tables_are_told_by_their_names() {
    let t = gidx_table("i_email");
    assert_eq!(t, "__gidx__i_email");
    assert!(is_gidx_table(&t));
    assert!(!is_gidx_table("i_email"));
    assert_eq!(gidx_index(&t), "i_email");
    assert!(is_system_table("node_stats") && is_system_table("metrics"));
    assert!(!is_system_table("__gidx__i_email"));
    assert!(!is_system_table("orders"));
}

#[test]
fn entry_keys_give_back_their_parts() {
    let key = gidx_entry_key(b"val", b"row");
    assert_eq!(key, b"\x00\x03valrow".to_vec());
    assert_eq!(gidx_placement_prefix(&key), b"\x00\x03val");
    assert_eq!(gidx_entry_row_key(&key), Some(&b"row"[..]));
    // Malformed keys are placed whole and lead to no row.
    assert_eq!(gidx_placement_prefix(b"\x00"), b"\x00");
    assert_eq!(gidx_placement_prefix(b"\x00\x05ab"), b"\x00\x05ab");
    assert_eq!(gidx_entry_row_key(b"\x00\x05ab"), None);
    assert_eq!(gidx_entry_row_key(b""), None);
}

#[test]
fn a_probe_reads_its_tuple_and_no_other() {
    let (lo, hi) = gidx_probe_bounds(b"ab").unwrap();
    let within = |k: &[u8]| !bytes_below(k, &lo) && bytes_below(k, &hi);
    assert!(within(&gidx_entry_key(b"ab", b"1")));
    assert!(within(&gidx_entry_key(b"ab", b"")));
    assert!(!within(&gidx_entry_key(b"abc", b"1")));
    assert!(!within(&gidx_entry_key(b"aa", b"1")));
}

#[test]
fn an_upper_bound_is_the_next_prefix() {
    assert_eq!(prefix_upper_bound(b"ab"), Some(b"ac".to_vec()));
    assert_eq!(prefix_upper_bound(b"a\xff"), Some(b"b".to_vec()));
    assert_eq!(prefix_upper_bound(b"\xff\xff"), None);
    assert_eq!(prefix_upper_bound(b""), None);
    assert!(bytes_below(b"ab", b"abc"));
    assert!(!bytes_below(b"b", b"abc"));
}

#[test]
fn checksums_are_fnv1a() {
    assert_eq!(fnv1a(b""), 0xcbf2_9ce4_8422_2325);
    assert_eq!(fnv1a(b"a"), 0xaf63_dc4c_8601_ec8c);
    assert_eq!(fnv1a(b"foobar"), 0x8594_4171_f739_67e8);
}

#[test]
fn integers_are_little_endian() {
    let mut out = Vec::new();
    push_le32(&mut out, 0x0102_0304);
    push_le64(&mut out, 5);
    assert_eq!(out, vec![4, 3, 2, 1, 5, 0, 0, 0, 0, 0, 0, 0]);
    assert_eq!(read_le32(&out, 0), 0x0102_0304);
    assert_eq!(read_le64(&out, 4), 5);
}

fn id(table: &str, key: &[u8]) -> RowId {
    RowId { table: table.to_string(), key: key.to_vec() }
}

fn listed(w: &TxnWrites) -> Vec<(String, Vec<u8>, Option<Vec<u8>>)> {
    (0..w.len())
        .map(|i| {
            let k = w.key_at(i);
            (k.table.clone(), k.key.clone(), w.value_at(i).clone())
        })
        .collect()
}

#[test]
fn a_journal_is_read_back() {
    let mut w: TxnWrites = SortedMap::new();
    w.insert(id("tä", b"k"), Some(b"doc".to_vec()));
    w.insert(id("a", b""), None);
    let bytes = encode_txn_journal(&w);
    assert_eq!(&bytes[..6], b"SKTXJ1");
    assert_eq!(&bytes[6..10], &[2, 0, 0, 0]);
    // Row order: the delete of table "a" comes first.
    assert_eq!(&bytes[10..20], &[1, 0, 0, 0, b'a', 0, 0, 0, 0, 0]);
    let body = &bytes[..bytes.len() - 8];
    assert_eq!(read_le64(&bytes, bytes.len() - 8), fnv1a(body));
    let back = decode_txn_journal(&bytes, |_d: &Vec<u8>| true).unwrap();
    assert_eq!(
        listed(&back),
        vec![
            ("a".to_string(), Vec::new(), None),
            ("tä".to_string(), b"k".to_vec(), Some(b"doc".to_vec())),
        ]
    );
}

#[test]
fn a_damaged_journal_is_refused() {
    let mut w: TxnWrites = SortedMap::new();
    w.insert(id("t", b"k"), Some(b"doc".to_vec()));
    let bytes = encode_txn_journal(&w);
    for cut in 0..bytes.len() {
        assert!(decode_txn_journal(&bytes[..cut], |_d: &Vec<u8>| true).is_none());
    }
    for at in 0..bytes.len() {
        let mut bad = bytes.clone();
        bad[at] ^= 1;
        assert!(decode_txn_journal(&bad, |_d: &Vec<u8>| true).is_none(), "flipped byte {at}");
    }
    // A row that does not decode to a document spoils the journal.
    assert!(decode_txn_journal(&bytes, |_d: &Vec<u8>| false).is_none());
    assert!(decode_txn_journal(&bytes, |d: &Vec<u8>| d == b"doc").is_some());
}

#[test]
fn a_journal_whose_table_name_is_not_utf8_is_refused() {
    let mut bad = b"SKTXJ1".to_vec();
    push_le32(&mut bad, 1);
    push_le32(&mut bad, 1);
    bad.push(0xff);
    push_le32(&mut bad, 0);
    bad.push(0);
    let sum = fnv1a(&bad);
    push_le64(&mut bad, sum);
    assert!(decode_txn_journal(&bad, |_d: &Vec<u8>| true).is_none());
}

#[test]
fn a_transaction_begins_buffers_and_ends() {
    let mut txn = TxnState::new();
    assert!(!txn.is_open());
    assert!(!txn.buffer("t", b"k", None));
    assert!(matches!(txn.commit(), Err(EngineError::Constraint(m)) if m == "no transaction in progress"));
    assert!(txn.rollback().is_err());
    txn.begin().unwrap();
    assert!(matches!(txn.begin(), Err(EngineError::Constraint(m)) if m == "a transaction is already in progress"));
    assert!(txn.buffer("t", b"k", Some(b"1".to_vec())));
    assert!(txn.buffer("t", b"k", Some(b"2".to_vec())));
    assert!(txn.buffer("s", b"k", None));
    let w = txn.commit().unwrap();
    assert!(!txn.is_open());
    assert_eq!(
        listed(&w),
        vec![
            ("s".to_string(), b"k".to_vec(), None),
            ("t".to_string(), b"k".to_vec(), Some(b"2".to_vec())),
        ]
    );
}

#[test]
fn a_session_lends_its_transaction() {
    let mut session = TxnState::new();
    session.begin().unwrap();
    let mut engine = TxnState::new();
    engine.install_session_txn(&mut session);
    assert!(engine.is_open() && !session.is_open());
    assert!(engine.buffer("t", b"k", None));
    engine.take_session_txn(&mut session);
    assert!(!engine.is_open() && session.is_open());
    assert_eq!(session.commit().unwrap().len(), 1);
}

#[test]
fn reads_see_the_open_transaction() {
    let committed = vec![(b"a".to_vec(), 1), (b"b".to_vec(), 2), (b"c".to_vec(), 3)];
    let mut writes: SortedMap<RowId, Option<i32>> = SortedMap::new();
    writes.insert(id("t", b"a"), Some(10));
    writes.insert(id("t", b"b"), Some(20));
    writes.insert(id("t", b"c"), None);
    writes.insert(id("t", b"d"), Some(4));
    writes.insert(id("u", b"e"), Some(5));
    let rows = gather_with_overlay(&committed, &writes, "t", |d: &i32| Ok(*d != 10)).unwrap();
    let shown: Vec<(Vec<u8>, i32)> = rows.into_iter().map(|(k, d)| (k, *d)).collect();
    assert_eq!(shown, vec![(b"b".to_vec(), 20), (b"d".to_vec(), 4)]);
    let failed = gather_with_overlay(&committed, &writes, "t", |_d: &i32| {
        Err(EngineError::Type("bad".to_string()))
    });
    assert!(matches!(failed, Err(EngineError::Type(_))));
}

#[test]
fn watermarks_are_written_as_json_and_read_back() {
    let mut w = AppliedWatermarks::new();
    w.set_applied_watermark("t", Hlc::new(7, 1));
    w.set_applied_watermark("a", Hlc::new(3, 0));
    w.set_applied_watermark("t", Hlc::new(9, 2));
    let bytes = w.encode().unwrap();
    assert_eq!(String::from_utf8(bytes.clone()).unwrap(), r#"[["a",3,0],["t",9,2]]"#);
    let back = AppliedWatermarks::load(&bytes);
    assert_eq!(back.get("t"), Some(Hlc::new(9, 2)));
    assert_eq!(back.get("a"), Some(Hlc::new(3, 0)));
    assert_eq!(back.get("x"), None);
    // What is not a list of stamps reads as nothing.
    assert_eq!(AppliedWatermarks::load(b"{").get("t"), None);
    assert_eq!(AppliedWatermarks::load(br#"{"t":1}"#).get("t"), None);
}

#[test]
fn text_helpers_follow_their_formulas() {
    assert_eq!(decimal_of(0), "0");
    assert_eq!(decimal_of(u64::MAX), "18446744073709551615");
    assert_eq!(signed_decimal_of(i64::MIN), "-9223372036854775808");
    assert_eq!(join(&vec!["a".to_string(), "b".to_string()], ", "), "a, b");
    assert_eq!(parse_unsigned("0042", 100), Some(42));
    assert_eq!(parse_unsigned("101", 100), None);
    assert_eq!(parse_unsigned("", 100), None);
    assert_eq!(parse_i64("-9223372036854775808"), Some(i64::MIN));
    assert_eq!(parse_i64("9223372036854775808"), None);
    assert_eq!(parse_i64("1x"), None);
    assert_eq!(split_once("a=b=c", '='), Some(("a".to_string(), "b=c".to_string())));
    assert_eq!(strip_prefix("tbl:t", "tbl:"), Some("t".to_string()));
    assert_eq!(strip_prefix("t", "tbl:"), None);
    assert_eq!(to_lower("TtL"), "ttl");
    assert!(eq_ignore_case("EF", "ef"));
    assert!(str_lt("a", "ab") && str_lt("ab", "b") && !str_lt("b", "b"));
}

/// A tuple as its values, each behind a mark, and a last byte.
fn encode_tuple(vs: &Vec<&Value>) -> Vec<u8> {
    let mut out = Vec::new();
    for v in vs {
        match v {
            Value::Int(n) => out.extend([1, *n as u8]),
            Value::Bytes(b) => {
                out.push(2);
                out.extend(b);
            }
            _ => out.push(0xFF),
        }
    }
    out.push(0);
    out
}

#[test]
fn index_entries_lie_in_the_range_of_their_values() {
    let (one, two, nine) = (Value::Int(1), Value::Int(2), Value::Int(9));
    let entry = index_entry_key(&encode_tuple, &vec![&one, &nine], b"k");
    assert_eq!(entry, vec![1, 1, 1, 9, 2, b'k', 0]);
    let start = index_prefix_n(&encode_tuple, &vec![&one]);
    let end = index_upper_bound_n(&encode_tuple, &vec![&one]).unwrap();
    assert_eq!((start.clone(), end.clone()), (vec![1, 1], vec![1, 2]));
    assert!(start <= entry && entry < end);
    let other = index_entry_key(&encode_tuple, &vec![&two, &one], b"k");
    assert!(other >= end);
    assert_eq!(index_upper_bound_n(&encode_tuple, &vec![&Value::Null]), None);
    // A bound that is left out is passed over.
    let cover = |skip_start, skip_end| Cover {
        index: s("i"),
        start: vec![&one],
        end: vec![&nine],
        skip_start,
        skip_end,
    };
    assert_eq!(
        cover_range(&encode_tuple, &cover(false, false)),
        Some((vec![1, 1], Some(vec![1, 10])))
    );
    assert_eq!(
        cover_range(&encode_tuple, &cover(true, true)),
        Some((vec![1, 2], Some(vec![1, 9])))
    );
    let last = Cover {
        index: s("i"),
        start: vec![&Value::Null],
        end: vec![&Value::Null],
        skip_start: true,
        skip_end: false,
    };
    assert_eq!(cover_range(&encode_tuple, &last), None);
    let plan = IndexPlan {
        index: s("i"),
        scan: ScanPlan { start: Some(vec![&one]), end: None, sorted: false, reverse: false },
    };
    assert_eq!(scan_range(&encode_tuple, &plan), (Some(vec![1, 1]), None));
}
