//! What a gather reads from a store whose indexes were kept along with its
//! rows.

use vstd::prelude::*;

use crate::access::walk_mode;
use crate::access::DirectView;
use crate::access::RequestView;
use crate::access::WalkKind;
use crate::ast::Expr;
use crate::bytes::bytes_lt;
use crate::bytes::upper_bound;
use crate::catalog::IndexDef;
use crate::constraints::constraints;
use crate::constraints::filter_comparisons;
use crate::constraints::order_key;
use crate::constraints::satisfies_all;
use crate::entry_range::tuple_prefix;
use crate::error::EngineError;
use crate::execute::encoding;
use crate::gather::gathered;
use crate::gather::keyed;
use crate::gather::matching_rows;
use crate::gather::row_of;
use crate::gather::StoredRow;
use crate::gather_laws::columns_of;
use crate::gather_laws::compares_by_keys;
use crate::gather_laws::covers_matches;
use crate::gather_laws::lemma_best_is_a_candidate;
use crate::gather_laws::lemma_gathers_the_matches;
use crate::gather_laws::lemma_on_direct_way;
use crate::gather_laws::live_rows;
use crate::gather_laws::may_go;
use crate::gather_laws::row_passes;
use crate::gather_laws::Columns;
use crate::gather_laws::Nearby;
use crate::gather_laws::Way;
use crate::maintenance::entry_keys;
use crate::maintenance::entry_of;
use crate::maintenance::local_on;
use crate::maintenance::maintained;
use crate::maintenance::maintenance_moves_the_entries;
use crate::maintenance::version_entries;
use crate::maintenance::EntrySet;
use crate::model::value_view;
use crate::model::ValueView;
use crate::plan::at_or_ahead;
use crate::plan::at_or_behind;
use crate::plan::candidate;
use crate::plan::key_names;
use crate::plan::keys_of;
use crate::plan::scan_loses_no_match;
use crate::plan::tuple_before;
use crate::plan::ScanView;
use crate::point_keys::meets_pins;
use crate::sorted_map::ascending;
use crate::sorted_map::SortKey;
use crate::text::lemma_seq_lt_irrefl;
use crate::value::Document;
use crate::value::Value;

verus! {

/// Values by what each holds.
pub open spec fn held(vs: Seq<Value>) -> Seq<ValueView> {
    vs.map_values(|v: Value| value_view(v))
}

/// The values of a document at some columns.
pub open spec fn values_at(at: Columns, doc: Document, names: Seq<Seq<char>>) -> Seq<Value> {
    names.map_values(|n: Seq<char>| at(doc, n))
}

/// The entry of a row in an index over some columns: its values there with its
/// key behind them, encoded.
pub open spec fn entry_bytes<K: Fn(&Vec<&Value>) -> Vec<u8>>(
    k: K,
    at: Columns,
    names: Seq<Seq<char>>,
    doc: Document,
    row: Seq<u8>,
) -> Seq<u8> {
    encoding(k, held(values_at(at, doc, names)).push(ValueView::Bytes(row)))
}

/// Whether an encoder keeps the order of tuples by their order keys: the
/// encoding of a tuple that is not before another, or goes on behind it, is not
/// before the other's prefix, and that of one that is not behind it is before
/// the prefix's end. Tuples with the same order keys are encoded the same.
pub open spec fn keeps_order<F: Fn(&Value) -> Vec<u8>, K: Fn(&Vec<&Value>) -> Vec<u8>>(
    key: F,
    k: K,
) -> bool {
    &&& forall|a: Seq<Value>, b: Seq<Value>, more: Seq<ValueView>|
        #![trigger encoding(k, held(a) + more), tuple_prefix(k, held(b))]
        b.len() <= a.len() ==> ({
            let own = encoding(k, held(a) + more);
            let prefix = tuple_prefix(k, held(b));
            let head = keys_of(key, a).take(b.len() as int);
            &&& !tuple_before(head, keys_of(key, b)) ==> !bytes_lt(own, prefix)
            &&& !tuple_before(keys_of(key, b), head) ==> (upper_bound(prefix) matches Some(end)
                ==> bytes_lt(own, end))
        })
    &&& forall|a: Seq<Value>, b: Seq<Value>|
        #![trigger encoding(k, held(a)), encoding(k, held(b))]
        keys_of(key, a) == keys_of(key, b) ==> encoding(k, held(a)) == encoding(k, held(b))
}

/// Whether an encoder keeps the rows of equally long tuples apart: entries that
/// are the same have the same row key at their end.
pub open spec fn keeps_rows_apart<K: Fn(&Vec<&Value>) -> Vec<u8>>(k: K) -> bool {
    forall|a: Seq<ValueView>, b: Seq<ValueView>, x: Seq<u8>, y: Seq<u8>|
        #![trigger encoding(k, a.push(ValueView::Bytes(x))), encoding(k, b.push(ValueView::Bytes(y)))]
        a.len() == b.len() && encoding(k, a.push(ValueView::Bytes(x))) == encoding(
            k,
            b.push(ValueView::Bytes(y)),
        ) ==> x == y
}

/// Whether an entry function gives a row its one entry in each of the indexes
/// on a table: none of them fans out over arrays.
pub open spec fn makes_one_entry<
    K: Fn(&Vec<&Value>) -> Vec<u8>,
    E: Fn(&Vec<String>, &Vec<u8>, &Document) -> Vec<Vec<u8>>,
>(k: K, at: Columns, es: Seq<(String, IndexDef)>, table: Seq<char>, entries: E) -> bool {
    forall|i: int, row: Vec<u8>, doc: Document|
        0 <= i < es.len() && local_on((#[trigger] es[i]).1, table) ==> #[trigger] entry_keys(
            entries,
            row,
            es[i].1.paths,
            doc,
        ) == seq![entry_bytes(k, at, key_names(es[i].1@.paths), doc, row@)]
}

/// The rows of a table by their keys.
pub type RowMap = Map<Seq<u8>, Document>;

/// Whether an entry is that of one of the rows, in the index of that name.
pub open spec fn is_held<K: Fn(&Vec<&Value>) -> Vec<u8>>(
    k: K,
    at: Columns,
    es: Seq<(String, IndexDef)>,
    table: Seq<char>,
    rows: RowMap,
    e: (Seq<char>, Seq<u8>),
) -> bool {
    exists|i: int, row: Seq<u8>|
        0 <= i < es.len() && local_on((#[trigger] es[i]).1, table) && es[i].0@ == e.0
            && #[trigger] rows.dom().contains(row) && e.1 == entry_bytes(
            k,
            at,
            key_names(es[i].1@.paths),
            rows[row],
            row,
        )
}

/// Whether the entries of a table's indexes are exactly those of its rows.
pub open spec fn in_step<K: Fn(&Vec<&Value>) -> Vec<u8>>(
    k: K,
    at: Columns,
    es: Seq<(String, IndexDef)>,
    table: Seq<char>,
    rows: RowMap,
    s: EntrySet,
) -> bool {
    forall|e: (Seq<char>, Seq<u8>)| #[trigger]
        s.contains(e) <==> is_held(k, at, es, table, rows, e)
}

/// A write: the row's key and its new document, or nothing for a delete.
pub type RowWrite = (Vec<u8>, Option<Document>);

/// The document of a row, where it is there.
pub open spec fn row_at(rows: RowMap, row: Seq<u8>) -> Option<Document> {
    if rows.dom().contains(row) {
        Some(rows[row])
    } else {
        None
    }
}

/// The rows and the entries after writes, each with its index maintenance.
pub open spec fn after_writes<E: Fn(&Vec<String>, &Vec<u8>, &Document) -> Vec<Vec<u8>>>(
    es: Seq<(String, IndexDef)>,
    table: Seq<char>,
    entries: E,
    ws: Seq<RowWrite>,
) -> (RowMap, EntrySet)
    decreases ws.len(),
{
    if ws.len() == 0 {
        (Map::empty(), Set::empty())
    } else {
        let (rows, s) = after_writes(es, table, entries, ws.drop_last());
        let (row, new) = ws.last();
        (
            match new {
                Some(doc) => rows.insert(row@, doc),
                None => rows.remove(row@),
            },
            maintained(s, es, table, entries, row, row_at(rows, row@), new),
        )
    }
}

/// What a version's entries are.
proof fn lemma_version_entry<
    K: Fn(&Vec<&Value>) -> Vec<u8>,
    E: Fn(&Vec<String>, &Vec<u8>, &Document) -> Vec<Vec<u8>>,
>(
    k: K,
    at: Columns,
    es: Seq<(String, IndexDef)>,
    table: Seq<char>,
    entries: E,
    row: Vec<u8>,
    doc: Document,
    e: (Seq<char>, Seq<u8>),
)
    requires
        makes_one_entry(k, at, es, table, entries),
    ensures
        entry_of(es, table, entries, row, doc, e) <==> exists|i: int|
            0 <= i < es.len() && local_on((#[trigger] es[i]).1, table) && es[i].0@ == e.0 && e.1
                == entry_bytes(k, at, key_names(es[i].1@.paths), doc, row@),
{
    if entry_of(es, table, entries, row, doc, e) {
        let i = choose|i: int|
            0 <= i < es.len() && local_on((#[trigger] es[i]).1, table) && es[i].0@ == e.0
                && entry_keys(entries, row, es[i].1.paths, doc).contains(e.1);
        let own = entry_bytes(k, at, key_names(es[i].1@.paths), doc, row@);
        assert(entry_keys(entries, row, es[i].1.paths, doc) == seq![own]);
        let j = choose|j: int| 0 <= j < seq![own].len() && seq![own][j] == e.1;
        assert(e.1 == own);
    }
    if exists|i: int|
        0 <= i < es.len() && local_on((#[trigger] es[i]).1, table) && es[i].0@ == e.0 && e.1
            == entry_bytes(k, at, key_names(es[i].1@.paths), doc, row@) {
        let i = choose|i: int|
            0 <= i < es.len() && local_on((#[trigger] es[i]).1, table) && es[i].0@ == e.0 && e.1
                == entry_bytes(k, at, key_names(es[i].1@.paths), doc, row@);
        assert(entry_keys(entries, row, es[i].1.paths, doc)[0] == e.1);
    }
}

/// Two indexes of one name are one.
proof fn lemma_one_index(es: Seq<(String, IndexDef)>, i: int, j: int)
    requires
        ascending(es),
        0 <= i < es.len(),
        0 <= j < es.len(),
        es[i].0@ == es[j].0@,
    ensures
        i == j,
{
    lemma_seq_lt_irrefl(es[i].0@);
    if i < j {
        assert(<String as SortKey>::below(es[i].0.model(), es[j].0.model()));
    } else if j < i {
        assert(<String as SortKey>::below(es[j].0.model(), es[i].0.model()));
    }
}

/// One write with its maintenance keeps the entries in step.
proof fn lemma_write_keeps_step<
    K: Fn(&Vec<&Value>) -> Vec<u8>,
    E: Fn(&Vec<String>, &Vec<u8>, &Document) -> Vec<Vec<u8>>,
>(
    k: K,
    at: Columns,
    es: Seq<(String, IndexDef)>,
    table: Seq<char>,
    entries: E,
    rows: RowMap,
    s: EntrySet,
    w: RowWrite,
)
    requires
        ascending(es),
        keeps_rows_apart(k),
        makes_one_entry(k, at, es, table, entries),
        in_step(k, at, es, table, rows, s),
    ensures
        in_step(
            k,
            at,
            es,
            table,
            match w.1 {
                Some(doc) => rows.insert(w.0@, doc),
                None => rows.remove(w.0@),
            },
            maintained(s, es, table, entries, w.0, row_at(rows, w.0@), w.1),
        ),
{
    let (row, new) = w;
    let old_doc = row_at(rows, row@);
    let after = match new {
        Some(doc) => rows.insert(row@, doc),
        None => rows.remove(row@),
    };
    let gone = version_entries(es, table, entries, row, old_doc);
    let came = version_entries(es, table, entries, row, new);
    maintenance_moves_the_entries(s, es, table, entries, row, old_doc, new);
    let t = maintained(s, es, table, entries, row, old_doc, new);
    assert forall|e: (Seq<char>, Seq<u8>)| #[trigger]
        t.contains(e) <==> is_held(k, at, es, table, after, e) by {
        if let Some(doc) = old_doc {
            lemma_version_entry(k, at, es, table, entries, row, doc, e);
        }
        if let Some(doc) = new {
            lemma_version_entry(k, at, es, table, entries, row, doc, e);
        }
        if t.contains(e) {
            if came.contains(e) {
                let i = choose|i: int|
                    0 <= i < es.len() && local_on((#[trigger] es[i]).1, table) && es[i].0@ == e.0
                        && e.1 == entry_bytes(
                        k,
                        at,
                        key_names(es[i].1@.paths),
                        new->0,
                        row@,
                    );
                assert(after.dom().contains(row@));
            } else {
                assert(s.contains(e));
                let (i, r) = choose|i: int, r: Seq<u8>|
                    0 <= i < es.len() && local_on((#[trigger] es[i]).1, table) && es[i].0@ == e.0
                        && #[trigger] rows.dom().contains(r) && e.1 == entry_bytes(
                        k,
                        at,
                        key_names(es[i].1@.paths),
                        rows[r],
                        r,
                    );
                if r == row@ {
                    assert(gone.contains(e));
                }
                assert(after.dom().contains(r));
            }
        }
        if is_held(k, at, es, table, after, e) {
            let (i, r) = choose|i: int, r: Seq<u8>|
                0 <= i < es.len() && local_on((#[trigger] es[i]).1, table) && es[i].0@ == e.0
                    && #[trigger] after.dom().contains(r) && e.1 == entry_bytes(
                    k,
                    at,
                    key_names(es[i].1@.paths),
                    after[r],
                    r,
                );
            if r == row@ {
                assert(new is Some);
                assert(came.contains(e));
            } else {
                assert(rows.dom().contains(r));
                assert(s.contains(e));
                if gone.contains(e) {
                    let j = choose|j: int|
                        0 <= j < es.len() && local_on((#[trigger] es[j]).1, table) && es[j].0@
                            == e.0 && e.1 == entry_bytes(
                            k,
                            at,
                            key_names(es[j].1@.paths),
                            old_doc->0,
                            row@,
                        );
                    lemma_one_index(es, i, j);
                    let names = key_names(es[i].1@.paths);
                    let a = held(values_at(at, after[r], names));
                    let b = held(values_at(at, old_doc->0, names));
                    assert(a.len() == b.len());
                    assert(encoding(k, a.push(ValueView::Bytes(r))) == encoding(
                        k,
                        b.push(ValueView::Bytes(row@)),
                    ));
                }
            }
        }
    }
}

/// Maintenance keeps a table's indexes in step with its rows: after any run of
/// writes, each with its maintenance, the entries are exactly those of the rows
/// that are there.
pub proof fn maintained_indexes_are_in_step<
    K: Fn(&Vec<&Value>) -> Vec<u8>,
    E: Fn(&Vec<String>, &Vec<u8>, &Document) -> Vec<Vec<u8>>,
>(
    k: K,
    at: Columns,
    es: Seq<(String, IndexDef)>,
    table: Seq<char>,
    entries: E,
    ws: Seq<RowWrite>,
)
    requires
        ascending(es),
        keeps_rows_apart(k),
        makes_one_entry(k, at, es, table, entries),
    ensures
        in_step(
            k,
            at,
            es,
            table,
            after_writes(es, table, entries, ws).0,
            after_writes(es, table, entries, ws).1,
        ),
    decreases ws.len(),
{
    if ws.len() == 0 {
        let rows = Map::<Seq<u8>, Document>::empty();
        let s = Set::<(Seq<char>, Seq<u8>)>::empty();
        assert forall|e: (Seq<char>, Seq<u8>)| #[trigger]
            s.contains(e) <==> is_held(k, at, es, table, rows, e) by {}
    } else {
        maintained_indexes_are_in_step(k, at, es, table, entries, ws.drop_last());
        let (rows, s) = after_writes(es, table, entries, ws.drop_last());
        lemma_write_keeps_step(k, at, es, table, entries, rows, s, ws.last());
    }
}

/// Whether a key lies in a byte range, an end that is not there being open.
pub open spec fn in_range(b: Seq<u8>, start: Option<Seq<u8>>, end: Option<Seq<u8>>) -> bool {
    &&& start matches Some(x) ==> !bytes_lt(b, x)
    &&& end matches Some(x) ==> bytes_lt(b, x)
}

/// Where a read from a tuple on starts.
pub open spec fn range_start<K: Fn(&Vec<&Value>) -> Vec<u8>>(k: K, t: Option<Seq<Value>>) -> Option<
    Seq<u8>,
> {
    match t {
        Some(t) => Some(tuple_prefix(k, held(t))),
        None => None,
    }
}

/// Where a read up to a tuple ends.
pub open spec fn range_end<K: Fn(&Vec<&Value>) -> Vec<u8>>(k: K, t: Option<Seq<Value>>) -> Option<
    Seq<u8>,
> {
    match t {
        Some(t) => upper_bound(tuple_prefix(k, held(t))),
        None => None,
    }
}

/// A tuple of one value, where there is one.
pub open spec fn lone(v: Option<Value>) -> Option<Seq<Value>> {
    match v {
        Some(v) => Some(seq![v]),
        None => None,
    }
}

/// Whether a scan of an index's entries comes by a row.
pub open spec fn scan_reads<K: Fn(&Vec<&Value>) -> Vec<u8>>(
    k: K,
    at: Columns,
    es: Seq<(String, IndexDef)>,
    s: EntrySet,
    index: Seq<char>,
    scan: ScanView,
    row: Seq<u8>,
    doc: Document,
) -> bool {
    exists|i: int|
        0 <= i < es.len() && (#[trigger] es[i]).0@ == index && ({
            let e = entry_bytes(k, at, key_names(es[i].1@.paths), doc, row);
            s.contains((index, e)) && in_range(
                e,
                range_start(k, scan.start),
                range_end(k, scan.end),
            )
        })
}

/// Whether a way through a store comes by a row: by its key, by its entry in an
/// index, or in a walk through the table.
pub open spec fn read_by<K: Fn(&Vec<&Value>) -> Vec<u8>>(
    k: K,
    at: Columns,
    near: Nearby,
    es: Seq<(String, IndexDef)>,
    s: EntrySet,
    way: Way,
    row: Seq<u8>,
    doc: Document,
) -> bool {
    match way {
        Way::Direct(DirectView::Point(t)) => row == encoding(k, held(t)),
        Way::Direct(DirectView::Points(ts)) => exists|i: int|
            0 <= i < ts.len() && row == encoding(k, held(#[trigger] ts[i])),
        Way::Direct(DirectView::Geo) => near(doc),
        Way::Direct(DirectView::KeyRange(start, end)) => in_range(
            row,
            range_start(k, Some(start)),
            range_end(k, Some(end)),
        ),
        Way::Direct(DirectView::KeyOrder(lo, hi, _)) => in_range(
            row,
            range_start(k, lone(lo)),
            range_end(k, lone(hi)),
        ),
        Way::Index(c) => scan_reads(k, at, es, s, c.index, c.scan, row, doc),
        Way::Table => true,
    }
}

/// Whether rows are those of a store: each stands under the encoding of its key
/// columns and is what the store holds there, and none of them is left out.
pub open spec fn rows_of_store<
    K: Fn(&Vec<&Value>) -> Vec<u8>,
    G: Fn(&Vec<u8>) -> Result<Document, EngineError>,
>(k: K, at: Columns, g: G, pk: Seq<Seq<char>>, m: RowMap, rows: Seq<StoredRow>) -> bool {
    &&& forall|i: int|
        0 <= i < rows.len() ==> (row_of(g, (#[trigger] rows[i]).1) matches Ok(doc) && rows[i].0@
            == encoding(k, held(values_at(at, doc, pk))) && m.dom().contains(rows[i].0@)
            && m[rows[i].0@] == doc)
    &&& forall|row: Seq<u8>| #[trigger]
        m.dom().contains(row) ==> exists|i: int|
            0 <= i < rows.len() && (#[trigger] rows[i]).0@ == row
}

/// Whether these are the rows that a way through a store comes by, each once.
pub open spec fn read_along<
    K: Fn(&Vec<&Value>) -> Vec<u8>,
    G: Fn(&Vec<u8>) -> Result<Document, EngineError>,
>(
    k: K,
    at: Columns,
    near: Nearby,
    g: G,
    es: Seq<(String, IndexDef)>,
    s: EntrySet,
    way: Way,
    rows: Seq<StoredRow>,
    stored: Seq<StoredRow>,
) -> bool {
    &&& stored.no_duplicates()
    &&& forall|row: StoredRow| #[trigger]
        stored.contains(row) <==> rows.contains(row) && read_by(
            k,
            at,
            near,
            es,
            s,
            way,
            row.0@,
            row_of(g, row.1)->Ok_0,
        )
}

/// What an entry between the bounds of a scan lies between as bytes.
proof fn lemma_in_range<F: Fn(&Value) -> Vec<u8>, K: Fn(&Vec<&Value>) -> Vec<u8>>(
    key: F,
    k: K,
    a: Seq<Value>,
    more: Seq<ValueView>,
    start: Option<Seq<Value>>,
    end: Option<Seq<Value>>,
)
    requires
        keeps_order(key, k),
        start matches Some(b) ==> at_or_behind(key, keys_of(key, a), b),
        end matches Some(b) ==> at_or_ahead(key, keys_of(key, a), b),
    ensures
        in_range(encoding(k, held(a) + more), range_start(k, start), range_end(k, end)),
{
    assert(keys_of(key, a).len() == a.len());
    let own = encoding(k, held(a) + more);
    if let Some(b) = start {
        let prefix = tuple_prefix(k, held(b));
        assert(!bytes_lt(own, prefix));
    }
    if let Some(b) = end {
        let prefix = tuple_prefix(k, held(b));
        assert(upper_bound(prefix) matches Some(x) ==> bytes_lt(own, x));
    }
}

/// A way through a store comes by the row of every match.
proof fn lemma_match_is_read<
    F: Fn(&Value) -> Vec<u8>,
    K: Fn(&Vec<&Value>) -> Vec<u8>,
>(
    key: F,
    k: K,
    at: Columns,
    near: Nearby,
    filter: Option<Expr>,
    pk: Seq<Seq<char>>,
    geo: bool,
    order: Option<RequestView>,
    limited: bool,
    es: Seq<(String, IndexDef)>,
    table: Seq<char>,
    m: RowMap,
    s: EntrySet,
    way: Way,
    row: Seq<u8>,
    doc: Document,
)
    requires
        keeps_order(key, k),
        in_step(k, at, es, table, m, s),
        m.dom().contains(row),
        m[row] == doc,
        row == encoding(k, held(values_at(at, doc, pk))),
        satisfies_all(key, columns_of(at, doc), filter_comparisons(filter)),
        filter matches Some(e) ==> meets_pins(key, columns_of(at, doc), e),
        geo ==> near(doc),
        may_go(
            way,
            pk,
            filter,
            constraints(key, filter_comparisons(filter)),
            geo,
            order,
            limited,
            es,
            table,
        ),
    ensures
        read_by(k, at, near, es, s, way, row, doc),
{
    let cols = columns_of(at, doc);
    let own = values_at(at, doc, pk);
    let none = Seq::<ValueView>::empty();
    assert(held(own) + none =~= held(own));
    assert(crate::plan::entry_keys(key, cols, pk) =~= keys_of(key, own));
    match way {
        Way::Direct(v) => {
            lemma_on_direct_way(key, cols, filter, pk, geo, order, limited, v, near(doc));
            match v {
                DirectView::Point(t) => {
                    assert(keys_of(key, t) == keys_of(key, own));
                    assert(encoding(k, held(t)) == encoding(k, held(own)));
                },
                DirectView::Points(ts) => {
                    let i = choose|i: int|
                        0 <= i < ts.len() && keys_of(key, #[trigger] ts[i]) == keys_of(key, own);
                    assert(encoding(k, held(ts[i])) == encoding(k, held(own)));
                },
                DirectView::KeyRange(start, end) => {
                    lemma_in_range(key, k, own, none, Some(start), Some(end));
                },
                DirectView::KeyOrder(lo, hi, _) => {
                    let head = keys_of(key, own).take(1);
                    assert(pk.len() > 0);
                    assert(head =~= seq![order_key(key, cols(pk[0]))]);
                    if let Some(b) = lo {
                        lemma_lone_order(head[0], order_key(key, b));
                        assert(keys_of(key, seq![b]) =~= seq![order_key(key, b)]);
                        assert(at_or_behind(key, keys_of(key, own), seq![b]));
                    }
                    if let Some(b) = hi {
                        lemma_lone_order(order_key(key, b), head[0]);
                        assert(keys_of(key, seq![b]) =~= seq![order_key(key, b)]);
                        assert(at_or_ahead(key, keys_of(key, own), seq![b]));
                    }
                    lemma_in_range(key, k, own, none, lone(lo), lone(hi));
                },
                DirectView::Geo => {},
            }
        },
        Way::Index(c) => {
            let ov = crate::access::index_order(order);
            let cs = constraints(key, filter_comparisons(filter));
            lemma_best_is_a_candidate(es, table, cs, ov, c);
            let i = choose|i: int|
                0 <= i < es.len() && candidate(#[trigger] es[i], table, cs, ov) == Some(c);
            let names = key_names(es[i].1@.paths);
            let vs = values_at(at, doc, names);
            scan_loses_no_match(key, cols, filter_comparisons(filter), names, ov);
            assert(crate::plan::entry_keys(key, cols, names) =~= keys_of(key, vs));
            let tail = seq![ValueView::Bytes(row)];
            lemma_in_range(key, k, vs, tail, c.scan.start, c.scan.end);
            assert(held(vs) + tail =~= held(vs).push(ValueView::Bytes(row)));
            let e = entry_bytes(k, at, names, doc, row);
            assert(local_on(es[i].1, table));
            assert(is_held(k, at, es, table, m, (c.index, e)));
            assert(s.contains((c.index, e)));
        },
        Way::Table => {},
    }
}

/// Tuples of one value are ordered by it.
proof fn lemma_lone_order(x: Seq<u8>, y: Seq<u8>)
    ensures
        tuple_before(seq![x], seq![y]) == bytes_lt(x, y),
{
    assert(seq![x].drop_first() =~= Seq::<Seq<u8>>::empty());
    assert(!tuple_before(seq![x].drop_first(), seq![y].drop_first()));
}

/// A gather without a limit over a store gives the same rows whichever way it
/// goes through it: exactly the stored rows that pass the filter, each once. The
/// ranges read are those of the planner's tuples, and the entries of the indexes
/// are in step with the rows.
pub proof fn every_read_of_a_store_gives_the_matching_rows<
    F: Fn(&Value) -> Vec<u8>,
    K: Fn(&Vec<&Value>) -> Vec<u8>,
    G: Fn(&Vec<u8>) -> Result<Document, EngineError>,
    D: Fn(&Expr, &Document) -> Result<bool, EngineError>,
    T: Fn(&Document, &Document) -> bool,
>(
    key: F,
    k: K,
    at: Columns,
    near: Nearby,
    g: G,
    d: D,
    t: T,
    filter: Option<Expr>,
    pk: Seq<Seq<char>>,
    geo: bool,
    order: Option<RequestView>,
    limited: bool,
    es: Seq<(String, IndexDef)>,
    table: Seq<char>,
    m: RowMap,
    s: EntrySet,
    rows: Seq<StoredRow>,
    way: Way,
    stored: Seq<StoredRow>,
    kind: WalkKind,
    ordered: bool,
    exact: bool,
)
    requires
        keeps_order(key, k),
        in_step(k, at, es, table, m, s),
        rows_of_store(k, at, g, pk, m, rows),
        live_rows(g, d, filter, rows),
        compares_by_keys(key, at, g, d, filter, rows),
        geo ==> covers_matches(near, g, d, filter, rows),
        may_go(
            way,
            pk,
            filter,
            constraints(key, filter_comparisons(filter)),
            geo,
            order,
            limited,
            es,
            table,
        ),
        read_along(k, at, near, g, es, s, way, rows, stored),
    ensures
        matching_rows(g, d, filter, rows) matches Ok(all) && all.no_duplicates() && (gathered(
            g,
            d,
            t,
            filter,
            walk_mode(kind, ordered, exact, None),
            kind == WalkKind::KeyRange,
            stored,
        ) matches Ok(c) && keyed(c.rows).no_duplicates() && keyed(c.rows).to_multiset()
            == all.to_multiset()),
{
    assert forall|i: int| 0 <= i < stored.len() implies rows.contains(#[trigger] stored[i]) by {
        assert(stored.contains(stored[i]));
    }
    assert forall|i: int|
        0 <= i < rows.len() && row_passes(g, d, filter, #[trigger] rows[i]) implies stored.contains(
        rows[i],
    ) by {
        let doc = row_of(g, rows[i].1)->Ok_0;
        lemma_match_is_read(
            key,
            k,
            at,
            near,
            filter,
            pk,
            geo,
            order,
            limited,
            es,
            table,
            m,
            s,
            way,
            rows[i].0@,
            doc,
        );
        assert(rows.contains(rows[i]));
    }
    lemma_gathers_the_matches(
        g,
        d,
        t,
        filter,
        walk_mode(kind, ordered, exact, None),
        kind == WalkKind::KeyRange,
        rows,
        stored,
    );
}

/// What was written is what is gathered: over a table that any run of writes
/// made, each with its index maintenance, a gather without a limit gives exactly
/// the rows that are there and pass the filter, each once, whichever way it goes
/// through the store.
pub proof fn what_was_written_is_gathered<
    F: Fn(&Value) -> Vec<u8>,
    K: Fn(&Vec<&Value>) -> Vec<u8>,
    E: Fn(&Vec<String>, &Vec<u8>, &Document) -> Vec<Vec<u8>>,
    G: Fn(&Vec<u8>) -> Result<Document, EngineError>,
    D: Fn(&Expr, &Document) -> Result<bool, EngineError>,
    T: Fn(&Document, &Document) -> bool,
>(
    key: F,
    k: K,
    at: Columns,
    near: Nearby,
    entries: E,
    g: G,
    d: D,
    t: T,
    filter: Option<Expr>,
    pk: Seq<Seq<char>>,
    geo: bool,
    order: Option<RequestView>,
    limited: bool,
    es: Seq<(String, IndexDef)>,
    table: Seq<char>,
    ws: Seq<RowWrite>,
    rows: Seq<StoredRow>,
    way: Way,
    stored: Seq<StoredRow>,
    kind: WalkKind,
    ordered: bool,
    exact: bool,
)
    requires
        ascending(es),
        keeps_order(key, k),
        keeps_rows_apart(k),
        makes_one_entry(k, at, es, table, entries),
        rows_of_store(k, at, g, pk, after_writes(es, table, entries, ws).0, rows),
        live_rows(g, d, filter, rows),
        compares_by_keys(key, at, g, d, filter, rows),
        geo ==> covers_matches(near, g, d, filter, rows),
        may_go(
            way,
            pk,
            filter,
            constraints(key, filter_comparisons(filter)),
            geo,
            order,
            limited,
            es,
            table,
        ),
        read_along(
            k,
            at,
            near,
            g,
            es,
            after_writes(es, table, entries, ws).1,
            way,
            rows,
            stored,
        ),
    ensures
        matching_rows(g, d, filter, rows) matches Ok(all) && all.no_duplicates() && (gathered(
            g,
            d,
            t,
            filter,
            walk_mode(kind, ordered, exact, None),
            kind == WalkKind::KeyRange,
            stored,
        ) matches Ok(c) && keyed(c.rows).no_duplicates() && keyed(c.rows).to_multiset()
            == all.to_multiset()),
{
    maintained_indexes_are_in_step(k, at, es, table, entries, ws);
    let (m, s) = after_writes(es, table, entries, ws);
    every_read_of_a_store_gives_the_matching_rows(
        key,
        k,
        at,
        near,
        g,
        d,
        t,
        filter,
        pk,
        geo,
        order,
        limited,
        es,
        table,
        m,
        s,
        rows,
        way,
        stored,
        kind,
        ordered,
        exact,
    );
}

} // verus!
