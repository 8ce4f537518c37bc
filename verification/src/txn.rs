//! The embedded transaction: buffered writes, reads through them, and what a
//! commit that was cut short leaves to be replayed.

use vstd::prelude::*;

use crate::bytes::bytes_lt;
use crate::bytes::copy_bytes;
use crate::error::constraint;
use crate::error::fails_with;
use crate::error::EngineError;
use crate::error::ErrorView;
use crate::journal::replayed;
use crate::journal::JournalRecord;
use crate::journal::TxnWrites;
use crate::sorted_map::holds_key;
use crate::sorted_map::lemma_entry_at;
use crate::sorted_map::place_of;
use crate::sorted_map::RowId;
use crate::sorted_map::SortKey;
use crate::sorted_map::SortedMap;
use crate::text::str_eq;

verus! {

/// A connection's transaction: its buffered writes while one is open.
pub struct TxnState {
    pub writes: Option<TxnWrites>,
}

impl TxnState {
    pub open spec fn wf(&self) -> bool {
        self.writes matches Some(w) ==> w.wf()
    }

    /// No transaction.
    pub fn new() -> (r: TxnState)
        ensures
            r.wf(),
            r.writes is None,
    {
        TxnState { writes: None }
    }

    /// Whether a transaction is open.
    pub fn is_open(&self) -> (r: bool)
        ensures
            r == (self.writes is Some),
    {
        self.writes.is_some()
    }

    /// Begins a transaction: later writes buffer until it ends.
    pub fn begin(&mut self) -> (r: Result<(), EngineError>)
        ensures
            old(self).writes is Some ==> *final(self) == *old(self) && fails_with(
                r,
                ErrorView::Constraint("a transaction is already in progress"@),
            ),
            old(self).writes is None ==> r is Ok && final(self).wf() && (final(self).writes matches Some(w)
                && w@ == Map::<(Seq<char>, Seq<u8>), Option<Vec<u8>>>::empty()),
    {
        if self.writes.is_some() {
            return Err(constraint("a transaction is already in progress"));
        }
        self.writes = Some(SortedMap::new());
        Ok(())
    }

    /// Ends the transaction for a commit and hands its write set out.
    pub fn commit(&mut self) -> (r: Result<TxnWrites, EngineError>)
        ensures
            final(self).writes is None,
            old(self).writes is None ==> fails_with(
                r,
                ErrorView::Constraint("no transaction in progress"@),
            ),
            old(self).writes matches Some(w) ==> (r matches Ok(out) && out == w),
    {
        match self.writes.take() {
            Some(w) => Ok(w),
            None => Err(constraint("no transaction in progress")),
        }
    }

    /// Discards the transaction.
    pub fn rollback(&mut self) -> (r: Result<(), EngineError>)
        ensures
            final(self).writes is None,
            old(self).writes is None ==> fails_with(
                r,
                ErrorView::Constraint("no transaction in progress"@),
            ),
            old(self).writes is Some ==> r is Ok,
    {
        match self.writes.take() {
            Some(_w) => Ok(()),
            None => Err(constraint("no transaction in progress")),
        }
    }

    /// Buffers a row's write when a transaction is open: a document to put or
    /// nothing for a delete. Says whether it was buffered.
    pub fn buffer(&mut self, table: &str, key: &[u8], op: Option<Vec<u8>>) -> (r: bool)
        requires
            old(self).wf(),
        ensures
            final(self).wf(),
            r == (old(self).writes is Some),
            old(self).writes is None ==> *final(self) == *old(self),
            old(self).writes matches Some(w) ==> (final(self).writes matches Some(v) && v@
                == w@.insert((table@, key@), op)),
    {
        match self.writes.take() {
            Some(mut w) => {
                w.insert(RowId { table: table.to_owned(), key: copy_bytes(key) }, op);
                self.writes = Some(w);
                true
            },
            None => false,
        }
    }
}

impl TxnState {
    /// Installs a session's transaction for the statement about to run.
    pub fn install_session_txn(&mut self, session: &mut TxnState)
        requires
            old(self).writes is None,
        ensures
            *final(self) == *old(session),
            final(session).writes is None,
    {
        self.writes = session.writes.take();
    }

    /// Hands the transaction back to its session once the statement has run.
    pub fn take_session_txn(&mut self, session: &mut TxnState)
        ensures
            *final(session) == *old(self),
            final(self).writes is None,
    {
        session.writes = self.writes.take();
    }
}

/// Puts replayed onto rows: a put stores its document, a delete removes the row.
pub open spec fn applied(
    rows: Map<(Seq<char>, Seq<u8>), Seq<u8>>,
    rs: Seq<JournalRecord>,
) -> Map<(Seq<char>, Seq<u8>), Seq<u8>>
    decreases rs.len(),
{
    if rs.len() == 0 {
        rows
    } else {
        let before = applied(rows, rs.drop_last());
        let r = rs.last();
        match r.op {
            Some(doc) => before.insert((r.table, r.key), doc),
            None => before.remove((r.table, r.key)),
        }
    }
}

/// After a write set is applied, a row it names holds what the set says of it
/// and every other row is as it was.
pub proof fn applied_is_the_write_set(
    rows: Map<(Seq<char>, Seq<u8>), Seq<u8>>,
    rs: Seq<JournalRecord>,
    m: (Seq<char>, Seq<u8>),
)
    ensures
        !replayed(rs).dom().contains(m) ==> (applied(rows, rs).dom().contains(m)
            == rows.dom().contains(m) && applied(rows, rs)[m] == rows[m]),
        replayed(rs).dom().contains(m) ==> match replayed(rs)[m] {
            Some(doc) => applied(rows, rs).dom().contains(m) && applied(rows, rs)[m] == doc,
            None => !applied(rows, rs).dom().contains(m),
        },
    decreases rs.len(),
{
    if rs.len() > 0 {
        applied_is_the_write_set(rows, rs.drop_last(), m);
    }
}

/// A commit that was cut short after applying any part of its write set is
/// completed by replaying the whole set: the rows end up as if it had never
/// been interrupted.
pub proof fn replay_completes_a_torn_commit(
    rows: Map<(Seq<char>, Seq<u8>), Seq<u8>>,
    rs: Seq<JournalRecord>,
    k: int,
)
    requires
        0 <= k <= rs.len(),
    ensures
        applied(applied(rows, rs.take(k)), rs) =~= applied(rows, rs),
{
    let torn = applied(rows, rs.take(k));
    let x = applied(torn, rs);
    let y = applied(rows, rs);
    assert forall|m: (Seq<char>, Seq<u8>)| #[trigger]
        x.dom().contains(m) == y.dom().contains(m) && (y.dom().contains(m) ==> x[m] == y[m]) by {
        applied_is_the_write_set(torn, rs, m);
        applied_is_the_write_set(rows, rs, m);
        applied_is_the_write_set(rows, rs.take(k), m);
        lemma_replayed_prefix(rs, k, m);
    }
    assert(x =~= y);
}

/// A row that a prefix of the records names, the whole run names too.
proof fn lemma_replayed_prefix(rs: Seq<JournalRecord>, k: int, m: (Seq<char>, Seq<u8>))
    requires
        0 <= k <= rs.len(),
    ensures
        replayed(rs.take(k)).dom().contains(m) ==> replayed(rs).dom().contains(m),
    decreases rs.len(),
{
    if k == rs.len() {
        assert(rs.take(k) =~= rs);
    } else {
        lemma_replayed_prefix(rs.drop_last(), k, m);
        assert(rs.drop_last().take(k) =~= rs.take(k));
    }
}

/// Whether the gathered rows hold `d` at key `k`.
pub open spec fn row_is<D>(rows: Seq<(Vec<u8>, &D)>, k: Seq<u8>, d: D) -> bool {
    exists|i: int| 0 <= i < rows.len() && (#[trigger] rows[i]).0@ == k && *rows[i].1 == d
}

/// Whether the gathered rows hold anything at key `k`.
pub open spec fn row_at<D>(rows: Seq<(Vec<u8>, &D)>, k: Seq<u8>) -> bool {
    exists|i: int| 0 <= i < rows.len() && (#[trigger] rows[i]).0@ == k
}

/// The keys of gathered rows ascend strictly.
pub open spec fn rows_ascend<D>(rows: Seq<(Vec<u8>, &D)>) -> bool {
    forall|i: int, j: int|
        0 <= i < j < rows.len() ==> bytes_lt((#[trigger] rows[i]).0@, (#[trigger] rows[j]).0@)
}

/// The committed rows by key: the last of a key wins.
pub open spec fn committed_map<D>(rows: Seq<(Vec<u8>, D)>) -> Map<Seq<u8>, D>
    decreases rows.len(),
{
    if rows.len() == 0 {
        Map::empty()
    } else {
        committed_map(rows.drop_last()).insert(rows.last().0@, rows.last().1)
    }
}

/// What the rows hold at key `k`, given what is committed and what the open
/// transaction wrote: a buffered document that passes the filter stands in
/// for the committed one, one that fails it or a buffered delete hides it,
/// and an unwritten key is read as committed.
pub open spec fn overlaid<D, F: Fn(&D) -> Result<bool, EngineError>>(
    rows: Seq<(Vec<u8>, &D)>,
    committed: Map<Seq<u8>, D>,
    writes: Map<(Seq<char>, Seq<u8>), Option<D>>,
    table: Seq<char>,
    matches: F,
    k: Seq<u8>,
) -> bool {
    if writes.dom().contains((table, k)) {
        match writes[(table, k)] {
            Some(d) => (row_at(rows, k) ==> row_is(rows, k, d) && call_ensures(
                matches,
                (&d,),
                Ok(true),
            )) && (!row_at(rows, k) ==> call_ensures(matches, (&d,), Ok(false))),
            None => !row_at(rows, k),
        }
    } else if committed.dom().contains(k) {
        row_is(rows, k, committed[k])
    } else {
        !row_at(rows, k)
    }
}

/// A transaction reads its own writes: a row that it wrote last and that the
/// filter does not turn down is read as written, and one that it deleted last
/// is not read, whatever is committed.
pub proof fn own_writes_are_read<D, F: Fn(&D) -> Result<bool, EngineError>>(
    rows: Seq<(Vec<u8>, &D)>,
    committed: Map<Seq<u8>, D>,
    writes: Map<(Seq<char>, Seq<u8>), Option<D>>,
    table: Seq<char>,
    matches: F,
    k: Seq<u8>,
    op: Option<D>,
)
    requires
        overlaid(rows, committed, writes.insert((table, k), op), table, matches, k),
    ensures
        op matches Some(d) ==> !call_ensures(matches, (&d,), Ok(false)) ==> row_is(rows, k, d),
        op is None ==> !row_at(rows, k),
{
}

/// What a partly merged map holds at key `k`, with the buffered writes `es`
/// merged so far.
spec fn merged<D, F: Fn(&D) -> Result<bool, EngineError>>(
    m: Map<Seq<u8>, &D>,
    base: Map<Seq<u8>, D>,
    es: Seq<(RowId, Option<D>)>,
    writes: Map<(Seq<char>, Seq<u8>), Option<D>>,
    table: Seq<char>,
    matches: F,
    k: Seq<u8>,
) -> bool {
    if holds_key(es, (table, k)) {
        match writes[(table, k)] {
            Some(d) => (m.dom().contains(k) ==> *m[k] == d && call_ensures(matches, (&d,), Ok(true)))
                && (!m.dom().contains(k) ==> call_ensures(matches, (&d,), Ok(false))),
            None => !m.dom().contains(k),
        }
    } else {
        m.dom().contains(k) == base.dom().contains(k) && (m.dom().contains(k) ==> *m[k] == base[k])
    }
}

/// Gathers the rows of `table` with the open transaction's writes merged over
/// the committed rows, which already passed the filter. `matches` evaluates
/// the filter on a buffered document. Rows come back in key order.
pub fn gather_with_overlay<'a, D, F: Fn(&D) -> Result<bool, EngineError>>(
    committed: &'a Vec<(Vec<u8>, D)>,
    writes: &'a SortedMap<RowId, Option<D>>,
    table: &str,
    matches: F,
) -> (r: Result<Vec<(Vec<u8>, &'a D)>, EngineError>)
    requires
        writes.wf(),
        forall|d: &D| call_requires(matches, (d,)),
    ensures
        r matches Ok(rows) ==> rows_ascend(rows@) && forall|k: Seq<u8>| #[trigger]
            overlaid(rows@, committed_map(committed@), writes@, table@, matches, k),
        r matches Err(e) ==> exists|k: Seq<u8>|
            #[trigger] writes@.dom().contains((table@, k)) && (writes@[(table@, k)] matches Some(d)
                && call_ensures(matches, (&d,), Err(e))),
{
    let mut map: SortedMap<Vec<u8>, &'a D> = SortedMap::new();
    let mut i: usize = 0;
    let ghost base = committed_map(committed@);
    proof {
        assert(committed@.take(0) =~= Seq::<(Vec<u8>, D)>::empty());
    }
    while i < committed.len()
        invariant
            i <= committed.len(),
            map.wf(),
            forall|k: Seq<u8>| #[trigger]
                map@.dom().contains(k) <==> committed_map(
                    committed@.take(i as int),
                ).dom().contains(k),
            forall|k: Seq<u8>|
                map@.dom().contains(k) ==> *(#[trigger] map@[k]) == committed_map(
                    committed@.take(i as int),
                )[k],
        decreases committed.len() - i,
    {
        map.insert(copy_bytes(committed[i].0.as_slice()), &committed[i].1);
        proof {
            assert(committed@.take(i + 1).drop_last() =~= committed@.take(i as int));
        }
        i = i + 1;
    }
    proof {
        assert(committed@.take(committed.len() as int) =~= committed@);
    }
    let mut j: usize = 0;
    let ghost es = writes.entries@;
    while j < writes.len()
        invariant
            j <= es.len(),
            es == writes.entries@,
            writes.wf(),
            map.wf(),
            base == committed_map(committed@),
            forall|d: &D| call_requires(matches, (d,)),
            forall|k: Seq<u8>| #[trigger]
                merged(map@, base, es.take(j as int), writes@, table@, matches, k),
        decreases es.len() - j,
    {
        let row = writes.key_at(j);
        let ghost prev = map@;
        proof {
            lemma_entry_at(es, j as int);
            assert forall|w: (Seq<char>, Seq<u8>)|
                holds_key(es.take(j + 1), w) <==> holds_key(es.take(j as int), w) || w
                    == row.model() by {
                if holds_key(es.take(j + 1), w) {
                    let p = place_of(es.take(j + 1), w);
                    if p < j {
                        assert(es.take(j as int)[p].0.model() == w);
                    }
                }
                if holds_key(es.take(j as int), w) {
                    assert(es.take(j + 1)[place_of(es.take(j as int), w)].0.model() == w);
                }
                if w == row.model() {
                    assert(es.take(j + 1)[j as int].0.model() == w);
                }
            }
        }
        if str_eq(row.table.as_str(), table) {
            let key = copy_bytes(row.key.as_slice());
            match writes.value_at(j) {
                Some(doc) => {
                    match matches(doc) {
                        Ok(true) => {
                            map.insert(key, doc);
                        },
                        Ok(false) => {
                            map.remove(&key);
                        },
                        Err(e) => {
                            proof {
                                assert(writes@[(table@, row.key@)] == Some(*doc));
                                assert(writes@.dom().contains((table@, row.key@)));
                            }
                            return Err(e);
                        },
                    }
                },
                None => {
                    map.remove(&key);
                },
            }
        }
        proof {
            assert forall|k: Seq<u8>| #[trigger]
                merged(map@, base, es.take(j + 1), writes@, table@, matches, k) by {
                assert(merged(prev, base, es.take(j as int), writes@, table@, matches, k));
                assert(holds_key(es.take(j + 1), (table@, k)) <==> holds_key(
                    es.take(j as int),
                    (table@, k),
                ) || (table@, k) == row.model());
            }
        }
        j = j + 1;
    }
    proof {
        assert(es.take(es.len() as int) =~= es);
    }
    let ghost m = map@;
    let out = map.entries;
    proof {
        assert forall|k: Seq<u8>| #[trigger]
            row_at(out@, k) == m.dom().contains(k) && (row_at(out@, k) ==> row_is(
                out@,
                k,
                *m[k],
            )) by {
            if m.dom().contains(k) {
                let p = place_of(out@, k);
                lemma_entry_at(out@, p);
                assert(out@[p].0@ == k && *out@[p].1 == *m[k]);
            }
            if row_at(out@, k) {
                let p = choose|p: int| 0 <= p < out@.len() && (#[trigger] out@[p]).0@ == k;
                assert(out@[p].0.model() == k);
                lemma_entry_at(out@, p);
            }
        }
        assert forall|k: Seq<u8>| #[trigger]
            overlaid(out@, base, writes@, table@, matches, k) by {
            let w = (table@, k);
            assert(merged(m, base, es, writes@, table@, matches, k));
            assert(row_at(out@, k) == m.dom().contains(k));
            assert(holds_key(es, w) == writes@.dom().contains(w));
            if writes@.dom().contains(w) {
                if let Some(d) = writes@[w] {
                    if m.dom().contains(k) {
                        assert(*m[k] == d);
                    }
                }
            }
        }
        assert(rows_ascend(out@)) by {
            assert forall|a: int, b: int| 0 <= a < b < out@.len() implies bytes_lt(
                (#[trigger] out@[a]).0@,
                (#[trigger] out@[b]).0@,
            ) by {
                assert(<Vec<u8> as SortKey>::below(out@[a].0.model(), out@[b].0.model()));
            }
        }
    }
    Ok(out)
}

} // verus!
