//! The redo journal of a committed transaction: its byte format, and reading
//! it back.

use vstd::prelude::*;
use vstd::slice::slice_subrange;
use vstd::utf8::decode_utf8;
use vstd::utf8::encode_utf8;
use vstd::utf8::valid_utf8;

use crate::bytes::copy_bytes;
use crate::bytes::fnv;
use crate::bytes::fnv1a;
use crate::bytes::from_le32;
use crate::bytes::from_le64;
use crate::bytes::le32;
use crate::bytes::le64;
use crate::bytes::lemma_le32;
use crate::bytes::lemma_le64;
use crate::bytes::push_bytes;
use crate::bytes::push_le64;
use crate::bytes::push_len32;
use crate::bytes::read_le32;
use crate::bytes::read_le64;
use crate::bytes::same_bytes;
use crate::sorted_map::ascending;
use crate::sorted_map::entry_map;
use crate::sorted_map::holds_key;
use crate::sorted_map::lemma_entry_at;
use crate::sorted_map::place_of;
use crate::sorted_map::SortKey;
use crate::sorted_map::RowId;
use crate::sorted_map::SortedMap;

verus! {

/// A transaction's buffered writes in row order: an encoded document to put,
/// or nothing for a delete.
pub type TxnWrites = SortedMap<RowId, Option<Vec<u8>>>;

/// One journaled write.
pub struct JournalRecord {
    pub table: Seq<char>,
    pub key: Seq<u8>,
    pub op: Option<Seq<u8>>,
}

/// The bytes that a journal starts with: `SKTXJ1`.
pub open spec fn magic() -> Seq<u8> {
    seq![0x53u8, 0x4bu8, 0x54u8, 0x58u8, 0x4au8, 0x31u8]
}

/// The bytes of one record: table name and key behind their lengths, then a
/// marker byte, and for a put the document behind its length.
pub open spec fn record_bytes(r: JournalRecord) -> Seq<u8> {
    let table = encode_utf8(r.table);
    let head = le32(table.len() as int) + table + le32(r.key.len() as int) + r.key;
    match r.op {
        Some(doc) => head + seq![1u8] + le32(doc.len() as int) + doc,
        None => head + seq![0u8],
    }
}

/// The bytes of a run of records.
pub open spec fn records_bytes(rs: Seq<JournalRecord>) -> Seq<u8>
    decreases rs.len(),
{
    if rs.len() == 0 {
        Seq::empty()
    } else {
        record_bytes(rs[0]) + records_bytes(rs.drop_first())
    }
}

/// A journal without its checksum.
pub open spec fn journal_body(rs: Seq<JournalRecord>) -> Seq<u8> {
    magic() + le32(rs.len() as int) + records_bytes(rs)
}

/// A whole journal: the body, then its FNV-1a checksum.
pub open spec fn journal_bytes(rs: Seq<JournalRecord>) -> Seq<u8> {
    journal_body(rs) + le64(fnv(journal_body(rs)) as int)
}

/// A buffered operation by the bytes of its document.
pub open spec fn op_view(op: Option<Vec<u8>>) -> Option<Seq<u8>> {
    match op {
        Some(doc) => Some(doc@),
        None => None,
    }
}

/// The record of a buffered write.
pub open spec fn record_of(e: (RowId, Option<Vec<u8>>)) -> JournalRecord {
    JournalRecord { table: e.0.table@, key: e.0.key@, op: op_view(e.1) }
}

/// The records of a write set, in row order.
pub open spec fn records_of(es: Seq<(RowId, Option<Vec<u8>>)>) -> Seq<JournalRecord> {
    es.map_values(|e: (RowId, Option<Vec<u8>>)| record_of(e))
}

/// A write set by the bytes of its documents.
pub open spec fn writes_view(w: TxnWrites) -> Map<(Seq<char>, Seq<u8>), Option<Seq<u8>>> {
    w@.map_values(|op: Option<Vec<u8>>| op_view(op))
}

/// The write set that a run of records adds up to: the last record of a row wins.
pub open spec fn replayed(rs: Seq<JournalRecord>) -> Map<(Seq<char>, Seq<u8>), Option<Seq<u8>>>
    decreases rs.len(),
{
    if rs.len() == 0 {
        Map::empty()
    } else {
        replayed(rs.drop_last()).insert((rs.last().table, rs.last().key), rs.last().op)
    }
}

/// The record that `s` starts with and the number of bytes it takes; nothing
/// where `s` is too short for it or the table name is not UTF-8.
#[verifier::opaque]
pub open spec fn parse_record(s: Seq<u8>) -> Option<(JournalRecord, int)> {
    if s.len() < 4 {
        None
    } else {
        let a = 4 + from_le32(s.take(4));
        if s.len() < a + 4 || !valid_utf8(s.subrange(4, a)) {
            None
        } else {
            let b = a + 4 + from_le32(s.subrange(a, a + 4));
            if s.len() < b + 1 {
                None
            } else {
                let table = decode_utf8(s.subrange(4, a));
                let key = s.subrange(a + 4, b);
                if s[b] == 0 {
                    Some((JournalRecord { table, key, op: None }, b + 1))
                } else if s.len() < b + 5 {
                    None
                } else {
                    let c = b + 5 + from_le32(s.subrange(b + 1, b + 5));
                    if s.len() < c {
                        None
                    } else {
                        Some((JournalRecord { table, key, op: Some(s.subrange(b + 5, c)) }, c))
                    }
                }
            }
        }
    }
}

/// The first `count` records of `s`; nothing where one of them is cut short.
pub open spec fn parse_records(s: Seq<u8>, count: nat) -> Option<Seq<JournalRecord>>
    decreases count,
{
    if count == 0 {
        Some(Seq::empty())
    } else {
        match parse_record(s) {
            None => None,
            Some((r, n)) => match parse_records(s.skip(n), (count - 1) as nat) {
                None => None,
                Some(rest) => Some(seq![r] + rest),
            },
        }
    }
}

/// The records of a journal; nothing where it is torn, is no journal, or
/// fails its checksum.
pub open spec fn parse_journal(buf: Seq<u8>) -> Option<Seq<JournalRecord>> {
    if buf.len() < 18 || buf.take(6) != magic() {
        None
    } else {
        let body = buf.take(buf.len() - 8);
        if fnv(body) != from_le64(buf.skip(buf.len() - 8)) {
            None
        } else {
            parse_records(body.skip(10), from_le32(body.subrange(6, 10)) as nat)
        }
    }
}

/// Whether the lengths of a record fit their 32-bit headers.
pub open spec fn record_fits(r: JournalRecord) -> bool {
    &&& encode_utf8(r.table).len() < 0x1_0000_0000
    &&& r.key.len() < 0x1_0000_0000
    &&& r.op matches Some(doc) ==> doc.len() < 0x1_0000_0000
}

proof fn lemma_records_bytes_push(rs: Seq<JournalRecord>, r: JournalRecord)
    ensures
        records_bytes(rs.push(r)) == records_bytes(rs) + record_bytes(r),
    decreases rs.len(),
{
    let all = rs.push(r);
    if rs.len() == 0 {
        assert(all.drop_first() =~= Seq::<JournalRecord>::empty());
        assert(records_bytes(all.drop_first()) =~= Seq::<u8>::empty());
        assert(record_bytes(r) + Seq::<u8>::empty() =~= Seq::<u8>::empty() + record_bytes(r));
    } else {
        assert(all.drop_first() =~= rs.drop_first().push(r));
        lemma_records_bytes_push(rs.drop_first(), r);
        assert(record_bytes(rs[0]) + (records_bytes(rs.drop_first()) + record_bytes(r)) =~= (
        record_bytes(rs[0]) + records_bytes(rs.drop_first())) + record_bytes(r));
    }
}

/// A record is read back from its bytes, whatever follows them.
proof fn lemma_parse_record(r: JournalRecord, rest: Seq<u8>)
    requires
        record_fits(r),
    ensures
        parse_record(record_bytes(r) + rest) == Some((r, record_bytes(r).len() as int)),
{
    broadcast use vstd::utf8::encode_utf8_valid_utf8, vstd::utf8::encode_utf8_decode_utf8;

    reveal(parse_record);
    let s = record_bytes(r) + rest;
    let table = encode_utf8(r.table);
    let tn = table.len() as int;
    let kn = r.key.len() as int;
    lemma_le32(tn);
    lemma_le32(kn);
    let a = 4 + tn;
    let b = a + 4 + kn;
    assert(s.take(4) =~= le32(tn));
    assert(s.subrange(4, a) =~= table);
    assert(s.subrange(a, a + 4) =~= le32(kn));
    assert(s.subrange(a + 4, b) =~= r.key);
    match r.op {
        None => {
            assert(s[b] == 0);
        },
        Some(doc) => {
            let dn = doc.len() as int;
            lemma_le32(dn);
            assert(s[b] == 1);
            assert(s.subrange(b + 1, b + 5) =~= le32(dn));
            assert(s.subrange(b + 5, b + 5 + dn) =~= doc);
        },
    }
}

/// A run of records is read back from its bytes.
proof fn lemma_parse_records(rs: Seq<JournalRecord>)
    requires
        forall|i: int| 0 <= i < rs.len() ==> record_fits(#[trigger] rs[i]),
    ensures
        parse_records(records_bytes(rs), rs.len()) == Some(rs),
    decreases rs.len(),
{
    if rs.len() > 0 {
        let tail = rs.drop_first();
        assert forall|i: int| 0 <= i < tail.len() implies record_fits(#[trigger] tail[i]) by {
            assert(record_fits(rs[i + 1]));
        }
        lemma_parse_records(tail);
        lemma_parse_record(rs[0], records_bytes(tail));
        let s = records_bytes(rs);
        assert(s.skip(record_bytes(rs[0]).len() as int) =~= records_bytes(tail));
        assert(seq![rs[0]] + tail =~= rs);
    } else {
        assert(rs =~= Seq::<JournalRecord>::empty());
    }
}

/// Reading a journal gives back exactly the records that were written, as
/// long as the counts and lengths fit their 32-bit headers.
pub proof fn journal_round_trip(rs: Seq<JournalRecord>)
    requires
        rs.len() < 0x1_0000_0000,
        forall|i: int| 0 <= i < rs.len() ==> record_fits(#[trigger] rs[i]),
    ensures
        parse_journal(journal_bytes(rs)) == Some(rs),
{
    let body = journal_body(rs);
    let buf = journal_bytes(rs);
    let sum = fnv(body) as int;
    lemma_le64(sum);
    lemma_le32(rs.len() as int);
    assert(buf.take(buf.len() - 8) =~= body);
    assert(buf.skip(buf.len() - 8) =~= le64(sum));
    assert(buf.take(6) =~= magic());
    assert(body.subrange(6, 10) =~= le32(rs.len() as int));
    assert(body.skip(10) =~= records_bytes(rs));
    lemma_parse_records(rs);
}

/// Replaying the records of a write set gives the write set back.
pub proof fn replay_restores_writes(w: TxnWrites)
    requires
        w.wf(),
    ensures
        replayed(records_of(w.entries@)) == writes_view(w),
{
    lemma_replay_entries(w.entries@);
    assert(replayed(records_of(w.entries@)) =~= writes_view(w));
}

proof fn lemma_replay_entries(es: Seq<(RowId, Option<Vec<u8>>)>)
    requires
        ascending(es),
    ensures
        forall|m: (Seq<char>, Seq<u8>)| #[trigger]
            replayed(records_of(es)).dom().contains(m) <==> holds_key(es, m),
        forall|m: (Seq<char>, Seq<u8>)|
            holds_key(es, m) ==> #[trigger] replayed(records_of(es))[m] == op_view(
                entry_map(es)[m],
            ),
    decreases es.len(),
{
    if es.len() > 0 {
        let init = es.drop_last();
        assert(ascending(init));
        lemma_replay_entries(init);
        let rs = records_of(es);
        assert(rs.drop_last() =~= records_of(init));
        let n = es.len() - 1;
        let last = es[n].0.model();
        lemma_entry_at(es, n);
        assert forall|m: (Seq<char>, Seq<u8>)| #[trigger]
            replayed(rs).dom().contains(m) <==> holds_key(es, m) by {
            if holds_key(init, m) {
                assert(es[place_of(init, m)].0.model() == m);
            }
            if holds_key(es, m) && m != last {
                assert(init[place_of(es, m)].0.model() == m);
            }
        }
        assert forall|m: (Seq<char>, Seq<u8>)| holds_key(es, m) implies #[trigger] replayed(rs)[m]
            == op_view(entry_map(es)[m]) by {
            if m != last {
                let p = place_of(es, m);
                lemma_entry_at(es, p);
                lemma_entry_at(init, p);
            }
        }
    }
}

/// The journal of a write set.
pub fn encode_txn_journal(writes: &TxnWrites) -> (r: Vec<u8>)
    ensures
        r@ == journal_bytes(records_of(writes.entries@)),
{
    let mut buf: Vec<u8> = Vec::new();
    buf.push(0x53);
    buf.push(0x4b);
    buf.push(0x54);
    buf.push(0x58);
    buf.push(0x4a);
    buf.push(0x31);
    proof {
        assert(buf@ =~= magic());
    }
    push_len32(&mut buf, writes.len());
    let ghost rs = records_of(writes.entries@);
    let ghost head = magic() + le32(rs.len() as int);
    let mut i: usize = 0;
    proof {
        assert(rs.take(0) =~= Seq::<JournalRecord>::empty());
        assert(buf@ =~= head + records_bytes(rs.take(0)));
    }
    while i < writes.entries.len()
        invariant
            i <= writes.entries@.len(),
            rs == records_of(writes.entries@),
            buf@ == head + records_bytes(rs.take(i as int)),
        decreases writes.entries.len() - i,
    {
        let row = &writes.entries[i].0;
        let ghost start = buf@;
        let table = row.table.as_str().as_bytes();
        push_len32(&mut buf, table.len());
        push_bytes(&mut buf, table);
        push_len32(&mut buf, row.key.len());
        push_bytes(&mut buf, row.key.as_slice());
        match &writes.entries[i].1 {
            Some(doc) => {
                buf.push(1);
                push_len32(&mut buf, doc.len());
                push_bytes(&mut buf, doc.as_slice());
            },
            None => {
                buf.push(0);
            },
        }
        proof {
            let r = rs[i as int];
            assert(r == record_of(writes.entries@[i as int]));
            assert(buf@ =~= start + record_bytes(r));
            lemma_records_bytes_push(rs.take(i as int), r);
            assert(rs.take(i + 1) =~= rs.take(i as int).push(r));
            assert(buf@ =~= head + records_bytes(rs.take(i + 1)));
        }
        i = i + 1;
    }
    proof {
        assert(rs.take(rs.len() as int) =~= rs);
        assert(buf@ =~= journal_body(rs));
    }
    let sum: u64 = fnv1a(buf.as_slice());
    push_le64(&mut buf, sum);
    buf
}

/// `String::from_utf8`: the string that UTF-8 bytes spell; nothing where they
/// are not valid UTF-8.
#[verifier::external_body]
fn string_from_utf8(bytes: Vec<u8>) -> (r: Option<String>)
    ensures
        r is Some <==> valid_utf8(bytes@),
        r matches Some(s) ==> encode_utf8(s@) == bytes@,
{
    String::from_utf8(bytes).ok()
}

/// One record, with what holds its place in the write set.
struct ReadRecord {
    row: RowId,
    op: Option<Vec<u8>>,
    next: usize,
}

/// Reads the record at `at`.
fn read_record(body: &[u8], at: usize) -> (r: Option<ReadRecord>)
    requires
        at <= body.len(),
    ensures
        r is Some <==> parse_record(body@.skip(at as int)) is Some,
        r matches Some(x) ==> at <= x.next <= body.len() && parse_record(body@.skip(at as int)) == Some(
            (record_of((x.row, x.op)), x.next - at),
        ),
{
    broadcast use vstd::utf8::encode_utf8_decode_utf8;

    proof {
        reveal(parse_record);
    }
    let ghost s = body@.skip(at as int);
    let left: usize = body.len() - at;
    if left < 4 {
        return None;
    }
    let tn: usize = read_le32(body, at) as usize;
    proof {
        assert(s.take(4) =~= body@.subrange(at as int, at + 4));
    }
    if left - 4 < tn || left - 4 - tn < 4 {
        return None;
    }
    let a: usize = 4 + tn;
    let table_bytes = copy_bytes(slice_subrange(body, at + 4, at + a));
    proof {
        assert(s.subrange(4, a as int) =~= table_bytes@);
    }
    let table = match string_from_utf8(table_bytes) {
        Some(t) => t,
        None => {
            return None;
        },
    };
    let kn: usize = read_le32(body, at + a) as usize;
    proof {
        assert(s.subrange(a as int, a + 4) =~= body@.subrange(at + a, at + a + 4));
    }
    if left - a - 4 < kn || left - a - 4 - kn < 1 {
        return None;
    }
    let b: usize = a + 4 + kn;
    let key = copy_bytes(slice_subrange(body, at + a + 4, at + b));
    proof {
        assert(s.subrange(a + 4, b as int) =~= key@);
        assert(s[b as int] == body@[at + b]);
    }
    if body[at + b] == 0 {
        return Some(ReadRecord { row: RowId { table, key }, op: None, next: at + b + 1 });
    }
    if left - b < 5 {
        return None;
    }
    let dn: usize = read_le32(body, at + b + 1) as usize;
    proof {
        assert(s.subrange(b + 1, b + 5) =~= body@.subrange(at + b + 1, at + b + 5));
    }
    if left - b - 5 < dn {
        return None;
    }
    let c: usize = b + 5 + dn;
    let doc = copy_bytes(slice_subrange(body, at + b + 5, at + c));
    proof {
        assert(s.subrange(b + 5, c as int) =~= doc@);
    }
    Some(ReadRecord { row: RowId { table, key }, op: Some(doc), next: at + c })
}

/// Whether every journaled document was found to be one by `is_document`.
pub open spec fn documents_accepted<F: Fn(&Vec<u8>) -> bool>(
    rs: Seq<JournalRecord>,
    is_document: F,
) -> bool {
    forall|i: int|
        0 <= i < rs.len() && (#[trigger] rs[i]).op is Some ==> exists|v: Vec<u8>|
            v@ == rs[i].op->0 && call_ensures(is_document, (&v,), true)
}

/// Whether some journaled document was found not to be one by `is_document`.
pub open spec fn document_rejected<F: Fn(&Vec<u8>) -> bool>(
    rs: Seq<JournalRecord>,
    is_document: F,
) -> bool {
    exists|i: int, v: Vec<u8>|
        0 <= i < rs.len() && (#[trigger] rs[i]).op == Some(v@) && #[trigger] call_ensures(
            is_document,
            (&v,),
            false,
        )
}

/// One record further into a journal.
proof fn lemma_next_record(
    whole: Option<Seq<JournalRecord>>,
    done: Seq<JournalRecord>,
    s: Seq<u8>,
    count: nat,
    r: JournalRecord,
    n: int,
)
    requires
        count > 0,
        parse_record(s) == Some((r, n)),
        whole == (match parse_records(s, count) {
            Some(rest) => Some(done + rest),
            None => None,
        }),
    ensures
        whole == (match parse_records(s.skip(n), (count - 1) as nat) {
            Some(rest) => Some(done.push(r) + rest),
            None => None,
        }),
        whole matches Some(rs) ==> done.len() < rs.len() && rs[done.len() as int] == r,
        replayed(done.push(r)) == replayed(done).insert((r.table, r.key), r.op),
{
    match parse_records(s.skip(n), (count - 1) as nat) {
        Some(rest) => {
            assert(done + (seq![r] + rest) =~= done.push(r) + rest);
        },
        None => {},
    }
    assert(done.push(r).drop_last() =~= done);
}

/// Putting a row's operation into a write set.
proof fn lemma_writes_view_insert(a: TxnWrites, b: TxnWrites, row: RowId, op: Option<Vec<u8>>)
    requires
        b@ == a@.insert(row.model(), op),
    ensures
        writes_view(b) == writes_view(a).insert((row.table@, row.key@), op_view(op)),
{
    assert(writes_view(b) =~= writes_view(a).insert((row.table@, row.key@), op_view(op)));
}

/// The write set of a journal. Nothing for a torn or checksum-failing one, or
/// where `is_document` turns a journaled document down: the transaction was
/// never durably committed.
pub fn decode_txn_journal<F: Fn(&Vec<u8>) -> bool>(buf: &[u8], is_document: F) -> (r: Option<
    TxnWrites,
>)
    requires
        forall|v: &Vec<u8>| call_requires(is_document, (v,)),
    ensures
        r matches Some(w) ==> w.wf() && parse_journal(buf@) is Some && writes_view(w) == replayed(
            parse_journal(buf@)->0,
        ) && documents_accepted(parse_journal(buf@)->0, is_document),
        r is None ==> parse_journal(buf@) is None || document_rejected(
            parse_journal(buf@)->0,
            is_document,
        ),
{
    let n: usize = buf.len();
    if n < 18 {
        return None;
    }
    let mut start: Vec<u8> = Vec::new();
    start.push(0x53);
    start.push(0x4b);
    start.push(0x54);
    start.push(0x58);
    start.push(0x4a);
    start.push(0x31);
    proof {
        assert(start@ =~= magic());
        assert(buf@.subrange(0, 6) =~= buf@.take(6));
    }
    if !same_bytes(slice_subrange(buf, 0, 6), start.as_slice()) {
        return None;
    }
    let body = slice_subrange(buf, 0, n - 8);
    proof {
        assert(body@ =~= buf@.take(n - 8));
        assert(buf@.subrange(n - 8, n as int) =~= buf@.skip(n - 8));
    }
    if fnv1a(body) != read_le64(buf, n - 8) {
        return None;
    }
    let count: u32 = read_le32(body, 6);
    let ghost whole = parse_records(body@.skip(10), count as nat);
    assert(parse_journal(buf@) == whole);
    let mut writes: TxnWrites = SortedMap::new();
    let mut at: usize = 10;
    let mut i: u32 = 0;
    let ghost mut done: Seq<JournalRecord> = Seq::empty();
    proof {
        assert(writes_view(writes) =~= replayed(done));
        match whole {
            Some(rest) => {
                assert(done + rest =~= rest);
            },
            None => {},
        }
    }
    while i < count
        invariant
            i <= count,
            at <= body.len(),
            writes.wf(),
            writes_view(writes) == replayed(done),
            whole == (match parse_records(body@.skip(at as int), (count - i) as nat) {
                Some(rest) => Some(done + rest),
                None => None,
            }),
            forall|v: &Vec<u8>| call_requires(is_document, (v,)),
            documents_accepted(done, is_document),
            parse_journal(buf@) == whole,
        decreases count - i,
    {
        let rec = match read_record(body, at) {
            Some(rec) => rec,
            None => {
                return None;
            },
        };
        let ghost r = record_of((rec.row, rec.op));
        proof {
            let s = body@.skip(at as int);
            lemma_next_record(whole, done, s, (count - i) as nat, r, rec.next - at);
            assert(s.skip(rec.next - at) =~= body@.skip(rec.next as int));
        }
        if let Some(doc) = &rec.op {
            if !is_document(doc) {
                return None;
            }
        }
        proof {
            let rs = done.push(r);
            assert forall|k: int| 0 <= k < rs.len() && (#[trigger] rs[k]).op is Some implies exists|
                v: Vec<u8>,
            | v@ == rs[k].op->0 && call_ensures(is_document, (&v,), true) by {
                if k < done.len() {
                    assert(rs[k] == done[k]);
                }
            }
            done = rs;
        }
        at = rec.next;
        let ghost before = writes;
        writes.insert(rec.row, rec.op);
        proof {
            lemma_writes_view_insert(before, writes, rec.row, rec.op);
        }
        i = i + 1;
    }
    proof {
        assert(whole == Some(done + Seq::<JournalRecord>::empty()));
        assert(done + Seq::<JournalRecord>::empty() =~= done);
    }
    Some(writes)
}

} // verus!
