//! What a node answers from the rows that it stores itself.

use vstd::prelude::*;

use crate::ast::Expr;
use crate::bytes::copy_bytes;
use crate::counting::counts_are_exact;
use crate::counting::first_of_each;
use crate::counting::in_key_order;
use crate::counting::note_value;
use crate::counting::values_in_order;
use crate::database::Database;
use crate::error::EngineError;
use crate::error::ErrorView;
use crate::constraints::is_key_function;
use crate::execute::is_decider;
use crate::execute::is_encoder;
use crate::execute::matches_filter;
use crate::execute::passes;
use crate::gather::is_reader;
use crate::gather::leading;
use crate::gather::StoredRow;
use crate::hits::is_row_reader;
use crate::hits::row_of;
use crate::hlc::Hlc;
use crate::model::doc_view;
use crate::plan::complement_count;
use crate::plan::count_plan_is;
use crate::plan::plan_count;
use crate::plan::CountPlan;
use crate::plan::Cover;
use crate::point_keys::key_views;
use crate::projection::NameSet;
use crate::sorted_map::SortedMap;
use crate::value::Document;
use crate::value::Value;

verus! {

/// What a stored row gives a read: its document where it is one and passes the
/// filter. Bytes that cannot be read fail the read, unless it is lenient.
pub open spec fn row_passing<
    G: Fn(&Vec<u8>) -> Result<Option<Document>, EngineError>,
    D: Fn(&Expr, &Document) -> Result<bool, EngineError>,
>(g: G, d: D, filter: Option<Expr>, lenient: bool, bytes: Vec<u8>) -> Result<
    Option<Document>,
    EngineError,
> {
    match row_of(g, bytes) {
        Err(e) => if lenient {
            Ok(None)
        } else {
            Err(e)
        },
        Ok(None) => Ok(None),
        Ok(Some(doc)) => match passes(d, filter, doc_view(doc)) {
            Err(e) => Err(e),
            Ok(true) => Ok(Some(doc)),
            Ok(false) => Ok(None),
        },
    }
}

/// The rows that pass a filter, in the order in which they are stored.
pub open spec fn rows_passing<
    G: Fn(&Vec<u8>) -> Result<Option<Document>, EngineError>,
    D: Fn(&Expr, &Document) -> Result<bool, EngineError>,
>(g: G, d: D, filter: Option<Expr>, lenient: bool, rows: Seq<StoredRow>) -> Result<
    Seq<(Seq<u8>, Document)>,
    EngineError,
>
    decreases rows.len(),
{
    if rows.len() == 0 {
        Ok(Seq::empty())
    } else {
        match rows_passing(g, d, filter, lenient, rows.drop_last()) {
            Err(e) => Err(e),
            Ok(kept) => match row_passing(g, d, filter, lenient, rows.last().1) {
                Err(e) => Err(e),
                Ok(Some(doc)) => Ok(kept.push((rows.last().0@, doc))),
                Ok(None) => Ok(kept),
            },
        }
    }
}

proof fn lemma_passing_fails<
    G: Fn(&Vec<u8>) -> Result<Option<Document>, EngineError>,
    D: Fn(&Expr, &Document) -> Result<bool, EngineError>,
>(g: G, d: D, filter: Option<Expr>, lenient: bool, rows: Seq<StoredRow>, n: int)
    requires
        0 <= n <= rows.len(),
        rows_passing(g, d, filter, lenient, rows.take(n)) is Err,
    ensures
        rows_passing(g, d, filter, lenient, rows) == rows_passing(
            g,
            d,
            filter,
            lenient,
            rows.take(n),
        ),
    decreases rows.len() - n,
{
    if n == rows.len() {
        assert(rows.take(n) =~= rows);
    } else {
        assert(rows.take(n + 1).drop_last() =~= rows.take(n));
        lemma_passing_fails(g, d, filter, lenient, rows, n + 1);
    }
}

fn read_row<
    G: Fn(&Vec<u8>) -> Result<Option<Document>, EngineError>,
    D: Fn(&Expr, &Document) -> Result<bool, EngineError>,
>(g: &G, d: &D, filter: &Option<Expr>, lenient: bool, bytes: &Vec<u8>) -> (r: Result<
    Option<Document>,
    EngineError,
>)
    requires
        is_row_reader(*g),
        is_decider(*d),
    ensures
        r == row_passing(*g, *d, *filter, lenient, *bytes),
{
    let read = g(bytes);
    proof {
        assert(call_ensures(*g, (bytes,), read));
    }
    match read {
        Err(e) => if lenient {
            Ok(None)
        } else {
            Err(e)
        },
        Ok(None) => Ok(None),
        Ok(Some(doc)) => match matches_filter(d, filter, &doc) {
            Err(e) => Err(e),
            Ok(true) => Ok(Some(doc)),
            Ok(false) => Ok(None),
        },
    }
}

/// The keys of rows.
pub open spec fn row_keys(rows: Seq<(Seq<u8>, Document)>) -> Seq<Seq<u8>> {
    rows.map_values(|r: (Seq<u8>, Document)| r.0)
}

/// The keys of the stored rows that pass a filter: the candidates that a
/// coordinator reads again at its consistency.
pub fn local_scan_filtered_keys<
    G: Fn(&Vec<u8>) -> Result<Option<Document>, EngineError>,
    D: Fn(&Expr, &Document) -> Result<bool, EngineError>,
>(g: &G, d: &D, filter: &Option<Expr>, rows: &Vec<StoredRow>) -> (r: Result<
    Vec<Vec<u8>>,
    EngineError,
>)
    requires
        is_row_reader(*g),
        is_decider(*d),
    ensures
        match rows_passing(*g, *d, *filter, false, rows@) {
            Ok(kept) => r matches Ok(keys) && key_views(keys@) == row_keys(kept),
            Err(e) => r == Err::<Vec<Vec<u8>>, EngineError>(e),
        },
{
    let mut keys: Vec<Vec<u8>> = Vec::new();
    let ghost mut kept: Seq<(Seq<u8>, Document)> = Seq::empty();
    let mut i: usize = 0;
    proof {
        assert(rows@.take(0) =~= Seq::<StoredRow>::empty());
        assert(key_views(keys@) =~= row_keys(kept));
    }
    while i < rows.len()
        invariant
            is_row_reader(*g),
            is_decider(*d),
            i <= rows@.len(),
            rows_passing(*g, *d, *filter, false, rows@.take(i as int)) == Ok::<
                Seq<(Seq<u8>, Document)>,
                EngineError,
            >(kept),
            key_views(keys@) == row_keys(kept),
        decreases rows@.len() - i,
    {
        proof {
            assert(rows@.take(i + 1).drop_last() =~= rows@.take(i as int));
            assert(rows@.take(i + 1).last() == rows@[i as int]);
        }
        match read_row(g, d, filter, false, &rows[i].1) {
            Err(e) => {
                proof {
                    lemma_passing_fails(*g, *d, *filter, false, rows@, i + 1);
                }
                return Err(e);
            },
            Ok(None) => {},
            Ok(Some(doc)) => {
                let ghost before = key_views(keys@);
                keys.push(copy_bytes(rows[i].0.as_slice()));
                proof {
                    assert(key_views(keys@) =~= before.push(rows@[i as int].0@));
                    let more = kept.push((rows@[i as int].0@, doc));
                    assert(row_keys(more) =~= row_keys(kept).push(rows@[i as int].0@));
                    kept = more;
                }
            },
        }
        i = i + 1;
    }
    proof {
        assert(rows@.take(rows@.len() as int) =~= rows@);
    }
    Ok(keys)
}

/// The number of stored rows that pass a filter. Rows that cannot be read are
/// not counted.
pub fn local_count_matching<
    G: Fn(&Vec<u8>) -> Result<Option<Document>, EngineError>,
    D: Fn(&Expr, &Document) -> Result<bool, EngineError>,
>(g: &G, d: &D, filter: &Option<Expr>, rows: &Vec<StoredRow>) -> (r: Result<usize, EngineError>)
    requires
        is_row_reader(*g),
        is_decider(*d),
    ensures
        match rows_passing(*g, *d, *filter, true, rows@) {
            Ok(kept) => r matches Ok(n) && n == kept.len(),
            Err(e) => r == Err::<usize, EngineError>(e),
        },
{
    let mut n: usize = 0;
    let ghost mut kept: Seq<(Seq<u8>, Document)> = Seq::empty();
    let mut i: usize = 0;
    proof {
        assert(rows@.take(0) =~= Seq::<StoredRow>::empty());
    }
    while i < rows.len()
        invariant
            is_row_reader(*g),
            is_decider(*d),
            i <= rows@.len(),
            rows_passing(*g, *d, *filter, true, rows@.take(i as int)) == Ok::<
                Seq<(Seq<u8>, Document)>,
                EngineError,
            >(kept),
            n == kept.len(),
            n <= i,
        decreases rows@.len() - i,
    {
        proof {
            assert(rows@.take(i + 1).drop_last() =~= rows@.take(i as int));
            assert(rows@.take(i + 1).last() == rows@[i as int]);
        }
        match read_row(g, d, filter, true, &rows[i].1) {
            Err(e) => {
                proof {
                    lemma_passing_fails(*g, *d, *filter, true, rows@, i + 1);
                }
                return Err(e);
            },
            Ok(None) => {},
            Ok(Some(doc)) => {
                n = n + 1;
                proof {
                    kept = kept.push((rows@[i as int].0@, doc));
                }
            },
        }
        i = i + 1;
    }
    proof {
        assert(rows@.take(rows@.len() as int) =~= rows@);
    }
    Ok(n)
}

/// The values of rows at a column.
pub open spec fn column_of<L: Fn(&Document) -> Value>(
    l: L,
    rows: Seq<(Seq<u8>, Document)>,
) -> Seq<Value> {
    rows.map_values(|r: (Seq<u8>, Document)| leading(l, r.1))
}

/// The distinct values of a column over the stored rows that pass a filter, in
/// the order of their encoding; `NULL` is no value in use. Rows that cannot be
/// read are passed over.
pub fn local_distinct_values<
    G: Fn(&Vec<u8>) -> Result<Option<Document>, EngineError>,
    D: Fn(&Expr, &Document) -> Result<bool, EngineError>,
    L: Fn(&Document) -> Value,
    K: Fn(&Vec<&Value>) -> Vec<u8>,
>(g: &G, d: &D, l: &L, k: &K, filter: &Option<Expr>, rows: &Vec<StoredRow>) -> (r: Result<
    Vec<Value>,
    EngineError,
>)
    requires
        is_row_reader(*g),
        is_decider(*d),
        is_reader(*l),
        is_encoder(*k),
    ensures
        match rows_passing(*g, *d, *filter, true, rows@) {
            Ok(kept) => r matches Ok(vs) && in_key_order(
                vs@,
                first_of_each(*k, column_of(*l, kept)),
            ),
            Err(e) => r == Err::<Vec<Value>, EngineError>(e),
        },
{
    let mut found: SortedMap<Vec<u8>, Value> = SortedMap::new();
    let ghost mut kept: Seq<(Seq<u8>, Document)> = Seq::empty();
    let mut i: usize = 0;
    proof {
        assert(rows@.take(0) =~= Seq::<StoredRow>::empty());
        assert(column_of(*l, kept) =~= Seq::<Value>::empty());
    }
    while i < rows.len()
        invariant
            is_row_reader(*g),
            is_decider(*d),
            is_reader(*l),
            is_encoder(*k),
            i <= rows@.len(),
            rows_passing(*g, *d, *filter, true, rows@.take(i as int)) == Ok::<
                Seq<(Seq<u8>, Document)>,
                EngineError,
            >(kept),
            found.wf(),
            found@ == first_of_each(*k, column_of(*l, kept)),
        decreases rows@.len() - i,
    {
        proof {
            assert(rows@.take(i + 1).drop_last() =~= rows@.take(i as int));
            assert(rows@.take(i + 1).last() == rows@[i as int]);
        }
        match read_row(g, d, filter, true, &rows[i].1) {
            Err(e) => {
                proof {
                    lemma_passing_fails(*g, *d, *filter, true, rows@, i + 1);
                }
                return Err(e);
            },
            Ok(None) => {},
            Ok(Some(doc)) => {
                let v = l(&doc);
                proof {
                    assert(call_ensures(*l, (&doc,), v));
                    let more = kept.push((rows@[i as int].0@, doc));
                    assert(column_of(*l, more).drop_last() =~= column_of(*l, kept));
                    assert(column_of(*l, more).last() == v);
                    kept = more;
                }
                note_value(&mut found, k, v);
            },
        }
        i = i + 1;
    }
    proof {
        assert(rows@.take(rows@.len() as int) =~= rows@);
    }
    Ok(values_in_order(found))
}

/// Where every row can be read, a count is the number of the rows whose keys a
/// scan gives.
pub proof fn counted_rows_are_the_scanned_ones<
    G: Fn(&Vec<u8>) -> Result<Option<Document>, EngineError>,
    D: Fn(&Expr, &Document) -> Result<bool, EngineError>,
>(g: G, d: D, filter: Option<Expr>, rows: Seq<StoredRow>)
    ensures
        rows_passing(g, d, filter, false, rows) matches Ok(kept) ==> rows_passing(
            g,
            d,
            filter,
            true,
            rows,
        ) == Ok::<Seq<(Seq<u8>, Document)>, EngineError>(kept),
    decreases rows.len(),
{
    if rows.len() > 0 {
        counted_rows_are_the_scanned_ones(g, d, filter, rows.drop_last());
    }
}

/// The number of entries of a covering range, as it was counted.
pub open spec fn entries_of<Q: for<'b> Fn(&Cover<'b>) -> Result<usize, EngineError>>(
    q: Q,
    c: Cover<'_>,
) -> Result<usize, EngineError> {
    choose|r: Result<usize, EngineError>| call_ensures(q, (&c,), r)
}

/// Whether a function counts the entries of covering ranges, always the same
/// way.
pub open spec fn is_range_count<Q: for<'b> Fn(&Cover<'b>) -> Result<usize, EngineError>>(
    q: Q,
) -> bool {
    &&& forall|c: &Cover<'_>| call_requires(q, (c,))
    &&& forall|c: &Cover<'_>, x: Result<usize, EngineError>, y: Result<usize, EngineError>|
        call_ensures(q, (c,), x) && call_ensures(q, (c,), y) ==> x == y
}

/// A difference that does not fall below zero.
pub open spec fn less(total: usize, matching: usize) -> usize {
    if matching <= total {
        (total - matching) as usize
    } else {
        0
    }
}

/// What a count plan comes to on a table of `total` rows.
pub open spec fn counted_by<Q: for<'b> Fn(&Cover<'b>) -> Result<usize, EngineError>>(
    q: Q,
    total: usize,
    p: CountPlan<'_>,
) -> Result<Option<usize>, EngineError> {
    match p {
        CountPlan::Stream => Ok(None),
        CountPlan::Cover(c) => match entries_of(q, c) {
            Ok(n) => Ok(Some(n)),
            Err(e) => Err(e),
        },
        CountPlan::AllBut(c) => match entries_of(q, c) {
            Ok(n) => Ok(Some(less(total, n))),
            Err(e) => Err(e),
        },
        CountPlan::Complement { total: t, matching } => match entries_of(q, t) {
            Ok(n) => match entries_of(q, matching) {
                Ok(m) => Ok(Some(less(n, m))),
                Err(e) => Err(e),
            },
            Err(e) => Err(e),
        },
    }
}

fn count_entries<Q: for<'b> Fn(&Cover<'b>) -> Result<usize, EngineError>>(q: &Q, c: &Cover<'_>) -> (r:
    Result<usize, EngineError>)
    requires
        is_range_count(*q),
    ensures
        r == entries_of(*q, *c),
{
    let r = q(c);
    proof {
        assert(call_ensures(*q, (c,), r));
    }
    r
}

impl Database {
    /// Counts the rows of `table` that a filter lets through from index entries
    /// alone, where they can say: `open` names the indexes whose entries are at
    /// hand, `total` is the number of the table's rows, and `count` counts the
    /// entries of a range. Nothing inside a transaction, whose writes the
    /// entries do not hold, and on a table whose rows expire.
    pub fn local_count_filtered<
        F: Fn(&Value) -> Vec<u8>,
        Q: for<'b> Fn(&Cover<'b>) -> Result<usize, EngineError>,
    >(
        &self,
        table: &str,
        filter: &Option<Expr>,
        txn_open: bool,
        has_ttl: bool,
        open: &NameSet,
        key: &F,
        total: usize,
        count: &Q,
    ) -> (r: Result<Option<usize>, EngineError>)
        requires
            self.wf(),
            open.wf(),
            is_key_function(*key),
            is_range_count(*count),
        ensures
            if txn_open {
                r == Ok::<Option<usize>, EngineError>(None)
            } else if !self@.cat.tables.dom().contains(table@) {
                r matches Err(e) && e@ == ErrorView::TableNotFound(table@)
            } else if has_ttl || filter is None {
                r == Ok::<Option<usize>, EngineError>(None)
            } else {
                exists|p: CountPlan<'_>| #[trigger]
                    count_plan_is(
                        p,
                        self.catalog.indexes.entries@,
                        open@,
                        table@,
                        filter->0,
                        *key,
                    ) && r == counted_by(*count, total, p)
            },
    {
        match counts_are_exact(table, txn_open, self.has_table(table), has_ttl) {
            Err(e) => {
                return Err(e);
            },
            Ok(false) => {
                return Ok(None);
            },
            Ok(true) => {},
        }
        let expr = match filter {
            None => {
                return Ok(None);
            },
            Some(expr) => expr,
        };
        let plan = plan_count(&self.catalog.indexes, open, table, expr, key);
        let ghost p = plan;
        proof {
            assert(count_plan_is(
                p,
                self.catalog.indexes.entries@,
                open@,
                table@,
                filter->0,
                *key,
            ));
        }
        match plan {
            CountPlan::Stream => Ok(None),
            CountPlan::Cover(c) => match count_entries(count, &c) {
                Ok(n) => Ok(Some(n)),
                Err(e) => Err(e),
            },
            CountPlan::AllBut(c) => match count_entries(count, &c) {
                Ok(n) => Ok(Some(complement_count(total, n))),
                Err(e) => Err(e),
            },
            CountPlan::Complement { total: t, matching } => match count_entries(count, &t) {
                Ok(n) => match count_entries(count, &matching) {
                    Ok(m) => Ok(Some(complement_count(n, m))),
                    Err(e) => Err(e),
                },
                Err(e) => Err(e),
            },
        }
    }
}

/// A row as it goes to another node.
pub type WireRow = (Vec<u8>, Vec<u8>, Hlc, bool);

/// What an incremental pull sends of one stamp: nothing where it is older than
/// `since`, or where its row has meanwhile gone.
pub open spec fn since_row<F: Fn(&Vec<u8>) -> Result<Option<Vec<u8>>, EngineError>>(
    f: F,
    stamp: (Vec<u8>, Hlc, bool),
    since: u64,
) -> Result<Option<(Seq<u8>, Seq<u8>, Hlc, bool)>, EngineError> {
    if stamp.1.physical < since {
        Ok(None)
    } else if stamp.2 {
        match row_of(f, stamp.0) {
            Err(e) => Err(e),
            Ok(None) => Ok(None),
            Ok(Some(b)) => Ok(Some((stamp.0@, b@, stamp.1, true))),
        }
    } else {
        Ok(Some((stamp.0@, Seq::empty(), stamp.1, false)))
    }
}

/// What an incremental pull sends of a page of stamps.
pub open spec fn since_rows<F: Fn(&Vec<u8>) -> Result<Option<Vec<u8>>, EngineError>>(
    f: F,
    stamps: Seq<(Vec<u8>, Hlc, bool)>,
    since: u64,
) -> Result<Seq<(Seq<u8>, Seq<u8>, Hlc, bool)>, EngineError>
    decreases stamps.len(),
{
    if stamps.len() == 0 {
        Ok(Seq::empty())
    } else {
        match since_rows(f, stamps.drop_last(), since) {
            Err(e) => Err(e),
            Ok(rows) => match since_row(f, stamps.last(), since) {
                Err(e) => Err(e),
                Ok(None) => Ok(rows),
                Ok(Some(row)) => Ok(rows.push(row)),
            },
        }
    }
}

proof fn lemma_since_fails<F: Fn(&Vec<u8>) -> Result<Option<Vec<u8>>, EngineError>>(
    f: F,
    stamps: Seq<(Vec<u8>, Hlc, bool)>,
    since: u64,
    n: int,
)
    requires
        0 <= n <= stamps.len(),
        since_rows(f, stamps.take(n), since) is Err,
    ensures
        since_rows(f, stamps, since) == since_rows(f, stamps.take(n), since),
    decreases stamps.len() - n,
{
    if n == stamps.len() {
        assert(stamps.take(n) =~= stamps);
    } else {
        assert(stamps.take(n + 1).drop_last() =~= stamps.take(n));
        lemma_since_fails(f, stamps, since, n + 1);
    }
}

/// Rows that go to another node by what they hold.
pub open spec fn wire_views(rows: Seq<WireRow>) -> Seq<(Seq<u8>, Seq<u8>, Hlc, bool)> {
    rows.map_values(|r: WireRow| (r.0@, r.1@, r.2, r.3))
}

/// One page of an incremental pull.
pub struct SincePage {
    /// The rows stamped at or after the time of the pull, deleted ones with an
    /// empty value.
    pub rows: Vec<WireRow>,
    /// Where the walk over the stamps goes on, so that a sparse page costs no
    /// more than a full one.
    pub cursor: Option<Vec<u8>>,
    pub done: bool,
}

/// One page of an incremental pull over up to `limit` stamps; `read` gives the
/// value of a key.
pub fn local_scan_since_page<F: Fn(&Vec<u8>) -> Result<Option<Vec<u8>>, EngineError>>(
    stamps: &Vec<(Vec<u8>, Hlc, bool)>,
    since: u64,
    limit: usize,
    read: &F,
) -> (r: Result<SincePage, EngineError>)
    requires
        is_row_reader(*read),
    ensures
        match since_rows(*read, stamps@, since) {
            Err(e) => r == Err::<SincePage, EngineError>(e),
            Ok(rows) => r matches Ok(p) && wire_views(p.rows@) == rows && p.done == (stamps@.len()
                < limit) && match p.cursor {
                Some(k) => stamps@.len() > 0 && k@ == stamps@.last().0@,
                None => stamps@.len() == 0,
            },
        },
{
    let mut rows: Vec<WireRow> = Vec::new();
    let mut i: usize = 0;
    proof {
        assert(stamps@.take(0) =~= Seq::<(Vec<u8>, Hlc, bool)>::empty());
        assert(wire_views(rows@) =~= Seq::<(Seq<u8>, Seq<u8>, Hlc, bool)>::empty());
    }
    while i < stamps.len()
        invariant
            is_row_reader(*read),
            i <= stamps@.len(),
            since_rows(*read, stamps@.take(i as int), since) == Ok::<
                Seq<(Seq<u8>, Seq<u8>, Hlc, bool)>,
                EngineError,
            >(wire_views(rows@)),
        decreases stamps@.len() - i,
    {
        let ghost before = wire_views(rows@);
        proof {
            assert(stamps@.take(i + 1).drop_last() =~= stamps@.take(i as int));
            assert(stamps@.take(i + 1).last() == stamps@[i as int]);
        }
        let hlc = stamps[i].1;
        if hlc.physical >= since {
            if stamps[i].2 {
                let value = read(&stamps[i].0);
                proof {
                    assert(call_ensures(*read, (&stamps@[i as int].0,), value));
                }
                match value {
                    Err(e) => {
                        proof {
                            lemma_since_fails(*read, stamps@, since, i + 1);
                        }
                        return Err(e);
                    },
                    Ok(None) => {},
                    Ok(Some(bytes)) => {
                        let ghost b = bytes@;
                        rows.push((copy_bytes(stamps[i].0.as_slice()), bytes, hlc, true));
                        proof {
                            assert(wire_views(rows@) =~= before.push(
                                (stamps@[i as int].0@, b, hlc, true),
                            ));
                        }
                    },
                }
            } else {
                rows.push((copy_bytes(stamps[i].0.as_slice()), Vec::new(), hlc, false));
                proof {
                    assert(rows@.last().1@ =~= Seq::<u8>::empty());
                    assert(wire_views(rows@) =~= before.push(
                        (stamps@[i as int].0@, Seq::<u8>::empty(), hlc, false),
                    ));
                }
            }
        }
        i = i + 1;
    }
    proof {
        assert(stamps@.take(stamps@.len() as int) =~= stamps@);
    }
    let cursor = if stamps.len() == 0 {
        None
    } else {
        Some(copy_bytes(stamps[stamps.len() - 1].0.as_slice()))
    };
    Ok(SincePage { rows, cursor, done: stamps.len() < limit })
}

/// The keys whose rows are live, in order.
pub open spec fn present_of<F: Fn(&Vec<u8>) -> Result<Option<Vec<u8>>, EngineError>>(
    f: F,
    keys: Seq<Vec<u8>>,
    want: bool,
) -> Result<Seq<Seq<u8>>, EngineError>
    decreases keys.len(),
{
    if keys.len() == 0 {
        Ok(Seq::empty())
    } else {
        match present_of(f, keys.drop_last(), want) {
            Err(e) => Err(e),
            Ok(before) => match row_of(f, keys.last()) {
                Err(e) => Err(e),
                Ok(v) => if (v is Some) == want {
                    Ok(before.push(keys.last()@))
                } else {
                    Ok(before)
                },
            },
        }
    }
}

proof fn lemma_present_fails<F: Fn(&Vec<u8>) -> Result<Option<Vec<u8>>, EngineError>>(
    f: F,
    keys: Seq<Vec<u8>>,
    want: bool,
    n: int,
)
    requires
        0 <= n <= keys.len(),
        present_of(f, keys.take(n), want) is Err,
    ensures
        present_of(f, keys, want) == present_of(f, keys.take(n), want),
    decreases keys.len() - n,
{
    if n == keys.len() {
        assert(keys.take(n) =~= keys);
    } else {
        assert(keys.take(n + 1).drop_last() =~= keys.take(n));
        lemma_present_fails(f, keys, want, n + 1);
    }
}

pub(crate) fn sift_keys<F: Fn(&Vec<u8>) -> Result<Option<Vec<u8>>, EngineError>>(
    keys: &Vec<Vec<u8>>,
    read: &F,
    want: bool,
) -> (r: Result<Vec<Vec<u8>>, EngineError>)
    requires
        is_row_reader(*read),
    ensures
        match present_of(*read, keys@, want) {
            Ok(there) => r matches Ok(ks) && key_views(ks@) == there,
            Err(e) => r == Err::<Vec<Vec<u8>>, EngineError>(e),
        },
{
    let mut out: Vec<Vec<u8>> = Vec::new();
    let mut i: usize = 0;
    proof {
        assert(keys@.take(0) =~= Seq::<Vec<u8>>::empty());
        assert(key_views(out@) =~= Seq::<Seq<u8>>::empty());
    }
    while i < keys.len()
        invariant
            is_row_reader(*read),
            i <= keys@.len(),
            present_of(*read, keys@.take(i as int), want) == Ok::<Seq<Seq<u8>>, EngineError>(
                key_views(out@),
            ),
        decreases keys@.len() - i,
    {
        proof {
            assert(keys@.take(i + 1).drop_last() =~= keys@.take(i as int));
            assert(keys@.take(i + 1).last() == keys@[i as int]);
        }
        let value = read(&keys[i]);
        proof {
            assert(call_ensures(*read, (&keys@[i as int],), value));
        }
        match value {
            Err(e) => {
                proof {
                    lemma_present_fails(*read, keys@, want, i + 1);
                }
                return Err(e);
            },
            Ok(v) => {
                if v.is_some() == want {
                    let ghost before = key_views(out@);
                    out.push(copy_bytes(keys[i].as_slice()));
                    proof {
                        assert(key_views(out@) =~= before.push(keys@[i as int]@));
                    }
                }
            },
        }
        i = i + 1;
    }
    proof {
        assert(keys@.take(keys@.len() as int) =~= keys@);
    }
    Ok(out)
}

/// Those of a list of keys whose rows are live, in order.
pub fn keys_present<F: Fn(&Vec<u8>) -> Result<Option<Vec<u8>>, EngineError>>(
    keys: &Vec<Vec<u8>>,
    read: &F,
) -> (r: Result<Vec<Vec<u8>>, EngineError>)
    requires
        is_row_reader(*read),
    ensures
        match present_of(*read, keys@, true) {
            Ok(there) => r matches Ok(ks) && key_views(ks@) == there,
            Err(e) => r == Err::<Vec<Vec<u8>>, EngineError>(e),
        },
{
    sift_keys(keys, read, true)
}

} // verus!
