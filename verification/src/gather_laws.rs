//! What a gather gives does not hang on the way to the rows.

use vstd::prelude::*;

use crate::access::access_is;
use crate::access::direct_access;
use crate::access::index_order;
use crate::access::walk_mode;
use crate::access::Access;
use crate::access::CollectMode;
use crate::access::DirectView;
use crate::access::RequestView;
use crate::access::WalkKind;
use crate::ast::Expr;
use crate::bytes::bytes_lt;
use crate::catalog::IndexDef;
use crate::constraints::constraints;
use crate::constraints::constraints_lose_no_match;
use crate::constraints::filter_comparisons;
use crate::constraints::lemma_place_of_col;
use crate::constraints::order_key;
use crate::constraints::place_of_col;
use crate::constraints::satisfies_all;
use crate::constraints::ConstraintView;
use crate::error::EngineError;
use crate::execute::passes;
use crate::gather::gathered;
use crate::gather::keyed;
use crate::gather::matching_rows;
use crate::gather::row_of;
use crate::gather::unlimited_gather_is_the_filter;
use crate::gather::StoredRow;
use crate::model::doc_view;
use crate::plan::at_or_ahead;
use crate::plan::at_or_behind;
use crate::plan::best_of;
use crate::plan::candidate;
use crate::plan::choice_is;
use crate::plan::entry_keys;
use crate::plan::key_names;
use crate::plan::key_read_loses_no_match;
use crate::plan::keys_of;
use crate::plan::plan_is;
use crate::plan::scan_for;
use crate::plan::scan_loses_no_match;
use crate::plan::Candidate;
use crate::plan::IndexChoice;
use crate::plan::IndexPlan;
use crate::plan::OrderView;
use crate::plan::ScanView;
use crate::point_keys::meets_pins;
use crate::point_keys::pins_lose_no_match;
use crate::value::Document;
use crate::value::Value;

verus! {

/// The values of a document at its columns.
pub type Columns = spec_fn(Document, Seq<char>) -> Value;

/// The documents whose entries lie in the ranges that a geo index is read in.
pub type Nearby = spec_fn(Document) -> bool;

/// The values of one document at its columns.
pub open spec fn columns_of(at: Columns, doc: Document) -> spec_fn(Seq<char>) -> Value {
    |col: Seq<char>| at(doc, col)
}

/// An entry of a secondary index: the order keys of a row's values at the
/// index's columns, and the row's key.
pub struct EntryView {
    pub keys: Seq<Seq<u8>>,
    pub row: Seq<u8>,
}

/// Whether these can be the live rows of a table under a filter: each key is
/// there once, and each row can be read and decided.
pub open spec fn live_rows<
    G: Fn(&Vec<u8>) -> Result<Document, EngineError>,
    D: Fn(&Expr, &Document) -> Result<bool, EngineError>,
>(g: G, d: D, filter: Option<Expr>, rows: Seq<StoredRow>) -> bool {
    &&& forall|i: int, j: int|
        0 <= i < j < rows.len() ==> (#[trigger] rows[i]).0@ != (#[trigger] rows[j]).0@
    &&& forall|i: int|
        0 <= i < rows.len() ==> (row_of(g, (#[trigger] rows[i]).1) matches Ok(doc) && passes(
            d,
            filter,
            doc_view(doc),
        ) is Ok)
}

/// Whether a row passes the filter.
pub open spec fn row_passes<
    G: Fn(&Vec<u8>) -> Result<Document, EngineError>,
    D: Fn(&Expr, &Document) -> Result<bool, EngineError>,
>(g: G, d: D, filter: Option<Expr>, row: StoredRow) -> bool {
    row_of(g, row.1) matches Ok(doc) && passes(d, filter, doc_view(doc)) == Ok::<bool, EngineError>(
        true,
    )
}

/// Whether the filter's literals are typed like the stored values: the values
/// of a row that passes meet every comparison by their order keys.
pub open spec fn compares_by_keys<
    F: Fn(&Value) -> Vec<u8>,
    G: Fn(&Vec<u8>) -> Result<Document, EngineError>,
    D: Fn(&Expr, &Document) -> Result<bool, EngineError>,
>(key: F, at: Columns, g: G, d: D, filter: Option<Expr>, rows: Seq<StoredRow>) -> bool {
    forall|i: int|
        0 <= i < rows.len() && row_passes(g, d, filter, #[trigger] rows[i]) ==> ({
            let cols = columns_of(at, row_of(g, rows[i].1)->Ok_0);
            satisfies_all(key, cols, filter_comparisons(filter)) && (filter matches Some(e)
                ==> meets_pins(key, cols, e))
        })
}

/// Whether the ranges that a geo index is read in cover every match.
pub open spec fn covers_matches<
    G: Fn(&Vec<u8>) -> Result<Document, EngineError>,
    D: Fn(&Expr, &Document) -> Result<bool, EngineError>,
>(near: Nearby, g: G, d: D, filter: Option<Expr>, rows: Seq<StoredRow>) -> bool {
    forall|i: int|
        0 <= i < rows.len() && row_passes(g, d, filter, #[trigger] rows[i]) ==> near(
            row_of(g, rows[i].1)->Ok_0,
        )
}

/// The entry that a row has in an index over some columns.
pub open spec fn entry_of<
    F: Fn(&Value) -> Vec<u8>,
    G: Fn(&Vec<u8>) -> Result<Document, EngineError>,
>(key: F, at: Columns, g: G, names: Seq<Seq<char>>, row: StoredRow) -> EntryView {
    EntryView {
        keys: entry_keys(key, columns_of(at, row_of(g, row.1)->Ok_0), names),
        row: row.0@,
    }
}

/// Whether an index holds the entries of its rows: one for each, and no other.
pub open spec fn holds_entries<
    F: Fn(&Value) -> Vec<u8>,
    G: Fn(&Vec<u8>) -> Result<Document, EngineError>,
>(
    key: F,
    at: Columns,
    g: G,
    names: Seq<Seq<char>>,
    rows: Seq<StoredRow>,
    entries: Seq<EntryView>,
) -> bool {
    &&& entries.no_duplicates()
    &&& forall|i: int|
        0 <= i < rows.len() ==> entries.contains(entry_of(key, at, g, names, #[trigger] rows[i]))
    &&& forall|j: int|
        0 <= j < entries.len() ==> exists|i: int|
            0 <= i < rows.len() && entry_of(key, at, g, names, #[trigger] rows[i])
                == #[trigger] entries[j]
}

/// The way to the rows that a plan settles on.
pub enum Way {
    /// By the primary key.
    Direct(DirectView),
    /// Along a secondary index.
    Index(Candidate),
    /// Through the whole table.
    Table,
}

/// Whether a plan may settle on this way: the direct one where there is one,
/// else one of the best indexes, and the table where no index serves.
pub open spec fn may_go(
    way: Way,
    pk: Seq<Seq<char>>,
    filter: Option<Expr>,
    cs: Seq<ConstraintView>,
    geo: bool,
    order: Option<RequestView>,
    limited: bool,
    indexes: Seq<(String, IndexDef)>,
    table: Seq<char>,
) -> bool {
    match direct_access(pk, filter, cs, geo, order, limited) {
        Some(d) => way == Way::Direct(d),
        None => {
            let b = best_of(indexes, table, cs, index_order(order));
            match way {
                Way::Direct(_) => false,
                Way::Index(c) => b.sorted == Some(c) || b.unsorted == Some(c),
                Way::Table => b.sorted is None && b.unsorted is None,
            }
        },
    }
}

/// Whether a row is where a direct way looks.
pub open spec fn on_direct_way<F: Fn(&Value) -> Vec<u8>>(
    key: F,
    pk: Seq<Seq<char>>,
    way: DirectView,
    cols: spec_fn(Seq<char>) -> Value,
    near: bool,
) -> bool {
    let own = entry_keys(key, cols, pk);
    match way {
        DirectView::Point(t) => keys_of(key, t) == own,
        DirectView::Points(ts) => exists|i: int|
            0 <= i < ts.len() && keys_of(key, #[trigger] ts[i]) == own,
        DirectView::Geo => near,
        DirectView::KeyRange(start, end) => at_or_behind(key, own, start) && at_or_ahead(
            key,
            own,
            end,
        ),
        DirectView::KeyOrder(lo, hi, _) => {
            let x = order_key(key, cols(pk[0]));
            &&& lo matches Some(v) ==> !bytes_lt(x, order_key(key, v))
            &&& hi matches Some(v) ==> !bytes_lt(order_key(key, v), x)
        },
    }
}

/// Whether an entry lies between the bounds of a scan.
pub open spec fn scanned<F: Fn(&Value) -> Vec<u8>>(key: F, scan: ScanView, e: EntryView) -> bool {
    &&& scan.start matches Some(b) ==> at_or_behind(key, e.keys, b)
    &&& scan.end matches Some(b) ==> at_or_ahead(key, e.keys, b)
}

/// Whether a row is where a way looks: along an index, its entry lies between
/// the bounds of the scan.
pub open spec fn on_way<
    F: Fn(&Value) -> Vec<u8>,
    G: Fn(&Vec<u8>) -> Result<Document, EngineError>,
>(
    key: F,
    at: Columns,
    near: Nearby,
    g: G,
    pk: Seq<Seq<char>>,
    way: Way,
    entries: Map<Seq<char>, Seq<EntryView>>,
    row: StoredRow,
) -> bool {
    let doc = row_of(g, row.1)->Ok_0;
    match way {
        Way::Direct(d) => on_direct_way(key, pk, d, columns_of(at, doc), near(doc)),
        Way::Index(c) => scan_finds(key, c.scan, entries[c.index], row.0@),
        Way::Table => true,
    }
}

/// Whether a scan comes by an entry of the row with this key.
pub open spec fn scan_finds<F: Fn(&Value) -> Vec<u8>>(
    key: F,
    scan: ScanView,
    entries: Seq<EntryView>,
    row: Seq<u8>,
) -> bool {
    exists|j: int|
        0 <= j < entries.len() && (#[trigger] entries[j]).row == row && scanned(
            key,
            scan,
            entries[j],
        )
}

/// Whether these are the rows that a way comes by, in any order: each row of
/// the table that is where the way looks, once.
pub open spec fn stored_along<
    F: Fn(&Value) -> Vec<u8>,
    G: Fn(&Vec<u8>) -> Result<Document, EngineError>,
>(
    key: F,
    at: Columns,
    near: Nearby,
    g: G,
    pk: Seq<Seq<char>>,
    way: Way,
    rows: Seq<StoredRow>,
    entries: Map<Seq<char>, Seq<EntryView>>,
    stored: Seq<StoredRow>,
) -> bool {
    &&& stored.no_duplicates()
    &&& forall|row: StoredRow| #[trigger]
        stored.contains(row) <==> rows.contains(row) && on_way(
            key,
            at,
            near,
            g,
            pk,
            way,
            entries,
            row,
        )
}

/// A best plan is one that some index makes.
pub proof fn lemma_best_is_a_candidate(
    es: Seq<(String, IndexDef)>,
    table: Seq<char>,
    cs: Seq<ConstraintView>,
    order: Option<OrderView>,
    c: Candidate,
)
    requires
        ({
            let b = best_of(es, table, cs, order);
            b.sorted == Some(c) || b.unsorted == Some(c)
        }),
    ensures
        exists|k: int| 0 <= k < es.len() && candidate(#[trigger] es[k], table, cs, order) == Some(c),
    decreases es.len(),
{
    if es.len() > 0 {
        if candidate(es.last(), table, cs, order) == Some(c) {
            assert(candidate(es[es.len() - 1], table, cs, order) == Some(c));
        } else {
            lemma_best_is_a_candidate(es.drop_last(), table, cs, order, c);
            let k = choose|k: int|
                0 <= k < es.drop_last().len() && candidate(
                    #[trigger] es.drop_last()[k],
                    table,
                    cs,
                    order,
                ) == Some(c);
            assert(candidate(es[k], table, cs, order) == Some(c));
        }
    }
}

/// A direct way looks where the row of a match is.
pub proof fn lemma_on_direct_way<F: Fn(&Value) -> Vec<u8>>(
    key: F,
    cols: spec_fn(Seq<char>) -> Value,
    filter: Option<Expr>,
    pk: Seq<Seq<char>>,
    geo: bool,
    order: Option<RequestView>,
    limited: bool,
    way: DirectView,
    near: bool,
)
    requires
        geo ==> near,
        satisfies_all(key, cols, filter_comparisons(filter)),
        filter matches Some(e) ==> meets_pins(key, cols, e),
        direct_access(
            pk,
            filter,
            constraints(key, filter_comparisons(filter)),
            geo,
            order,
            limited,
        ) == Some(way),
    ensures
        on_direct_way(key, pk, way, cols, near),
{
    let ms = filter_comparisons(filter);
    let cs = constraints(key, ms);
    key_read_loses_no_match(key, cols, ms, pk);
    match way {
        DirectView::Points(ts) => {
            if let Some(e) = filter {
                pins_lose_no_match(key, cols, e, pk);
            }
        },
        DirectView::KeyOrder(lo, hi, descending) => {
            let p = place_of_col(cs, pk[0]);
            lemma_place_of_col(cs, pk[0]);
            if p < cs.len() {
                constraints_lose_no_match(key, cols, ms, p);
            }
        },
        _ => {},
    }
}

/// A scan of an index comes by the row of a match.
proof fn lemma_scan_finds<
    F: Fn(&Value) -> Vec<u8>,
    G: Fn(&Vec<u8>) -> Result<Document, EngineError>,
>(
    key: F,
    at: Columns,
    g: G,
    filter: Option<Expr>,
    names: Seq<Seq<char>>,
    order: Option<OrderView>,
    rows: Seq<StoredRow>,
    entries: Seq<EntryView>,
    scan: ScanView,
    i: int,
)
    requires
        0 <= i < rows.len(),
        satisfies_all(
            key,
            columns_of(at, row_of(g, rows[i].1)->Ok_0),
            filter_comparisons(filter),
        ),
        scan_for(names, constraints(key, filter_comparisons(filter)), order) == Some(scan),
        holds_entries(key, at, g, names, rows, entries),
    ensures
        scan_finds(key, scan, entries, rows[i].0@),
{
    let cols = columns_of(at, row_of(g, rows[i].1)->Ok_0);
    scan_loses_no_match(key, cols, filter_comparisons(filter), names, order);
    let own = entry_of(key, at, g, names, rows[i]);
    assert(entries.contains(own));
    let j = choose|j: int| 0 <= j < entries.len() && entries[j] == own;
    assert(entries[j].row == rows[i].0@);
    assert(scanned(key, scan, entries[j]));
}

/// No way loses a match: it looks where the row of every match is.
proof fn lemma_matches_are_along<
    F: Fn(&Value) -> Vec<u8>,
    G: Fn(&Vec<u8>) -> Result<Document, EngineError>,
>(
    key: F,
    at: Columns,
    near: Nearby,
    g: G,
    filter: Option<Expr>,
    pk: Seq<Seq<char>>,
    geo: bool,
    order: Option<RequestView>,
    limited: bool,
    indexes: Seq<(String, IndexDef)>,
    table: Seq<char>,
    rows: Seq<StoredRow>,
    entries: Map<Seq<char>, Seq<EntryView>>,
    way: Way,
    i: int,
)
    requires
        0 <= i < rows.len(),
        geo ==> near(row_of(g, rows[i].1)->Ok_0),
        ({
            let cols = columns_of(at, row_of(g, rows[i].1)->Ok_0);
            satisfies_all(key, cols, filter_comparisons(filter)) && (filter matches Some(e)
                ==> meets_pins(key, cols, e))
        }),
        indexes_hold(key, at, g, indexes, table, rows, entries),
        may_go(
            way,
            pk,
            filter,
            constraints(key, filter_comparisons(filter)),
            geo,
            order,
            limited,
            indexes,
            table,
        ),
    ensures
        on_way(key, at, near, g, pk, way, entries, rows[i]),
{
    match way {
        Way::Direct(v) => {
            let doc = row_of(g, rows[i].1)->Ok_0;
            let cols = columns_of(at, doc);
            lemma_on_direct_way(key, cols, filter, pk, geo, order, limited, v, near(doc));
        },
        Way::Index(c) => {
            let ov = index_order(order);
            let cs = constraints(key, filter_comparisons(filter));
            lemma_best_is_a_candidate(indexes, table, cs, ov, c);
            let k = choose|k: int|
                0 <= k < indexes.len() && candidate(#[trigger] indexes[k], table, cs, ov) == Some(
                    c,
                );
            lemma_scan_finds(
                key,
                at,
                g,
                filter,
                key_names(indexes[k].1@.paths),
                ov,
                rows,
                entries[c.index],
                c.scan,
                i,
            );
        },
        Way::Table => {},
    }
}

/// Whether every index that a read of the table can go along holds the entries
/// of its rows.
pub open spec fn indexes_hold<
    F: Fn(&Value) -> Vec<u8>,
    G: Fn(&Vec<u8>) -> Result<Document, EngineError>,
>(
    key: F,
    at: Columns,
    g: G,
    indexes: Seq<(String, IndexDef)>,
    table: Seq<char>,
    rows: Seq<StoredRow>,
    entries: Map<Seq<char>, Seq<EntryView>>,
) -> bool {
    forall|k: int|
        0 <= k < indexes.len() && (#[trigger] indexes[k]).1@.table == table
            && !indexes[k].1@.building && !indexes[k].1@.global ==> holds_entries(
            key,
            at,
            g,
            key_names(indexes[k].1@.paths),
            rows,
            entries[indexes[k].0@],
        )
}

/// The rows that pass are exactly those of the list that do.
proof fn lemma_matching<
    G: Fn(&Vec<u8>) -> Result<Document, EngineError>,
    D: Fn(&Expr, &Document) -> Result<bool, EngineError>,
>(g: G, d: D, filter: Option<Expr>, rows: Seq<StoredRow>)
    requires
        live_rows(g, d, filter, rows),
    ensures
        matching_rows(g, d, filter, rows) matches Ok(all) && all.no_duplicates() && (forall|
            k: Vec<u8>,
            doc: Document,
        | #[trigger]
            all.contains((k, doc)) <==> exists|i: int|
                0 <= i < rows.len() && row_passes(g, d, filter, #[trigger] rows[i]) && rows[i].0
                    == k && row_of(g, rows[i].1) == Ok::<Document, EngineError>(doc)),
    decreases rows.len(),
{
    if rows.len() > 0 {
        let init = rows.drop_last();
        let n = rows.len() - 1;
        lemma_matching(g, d, filter, init);
        let before = matching_rows(g, d, filter, init)->Ok_0;
        assert(row_of(g, rows[n].1) is Ok);
        let doc = row_of(g, rows[n].1)->Ok_0;
        let all = matching_rows(g, d, filter, rows)->Ok_0;
        if row_passes(g, d, filter, rows[n]) {
            assert(all == before.push((rows[n].0, doc)));
            assert forall|x: int| 0 <= x < before.len() implies before[x] != (rows[n].0, doc) by {
                let (k, m) = before[x];
                assert(before.contains((k, m)));
                let i = choose|i: int|
                    0 <= i < init.len() && row_passes(g, d, filter, #[trigger] init[i])
                        && init[i].0 == k && row_of(g, init[i].1) == Ok::<Document, EngineError>(m);
                assert(init[i] == rows[i]);
                assert(rows[i].0@ != rows[n].0@);
            }
        } else {
            assert(all == before);
        }
        assert forall|k: Vec<u8>, m: Document| #[trigger]
            all.contains((k, m)) <==> exists|i: int|
                0 <= i < rows.len() && row_passes(g, d, filter, #[trigger] rows[i]) && rows[i].0
                    == k && row_of(g, rows[i].1) == Ok::<Document, EngineError>(m) by {
            if all.contains((k, m)) {
                let x = choose|x: int| 0 <= x < all.len() && all[x] == (k, m);
                if x < before.len() {
                    assert(before[x] == (k, m));
                    assert(before.contains((k, m)));
                    let i = choose|i: int|
                        0 <= i < init.len() && row_passes(g, d, filter, #[trigger] init[i])
                            && init[i].0 == k && row_of(g, init[i].1) == Ok::<
                            Document,
                            EngineError,
                        >(m);
                    assert(rows[i] == init[i]);
                } else {
                    assert(rows[n].0 == k);
                }
            }
            if exists|i: int|
                0 <= i < rows.len() && row_passes(g, d, filter, #[trigger] rows[i]) && rows[i].0
                    == k && row_of(g, rows[i].1) == Ok::<Document, EngineError>(m) {
                let i = choose|i: int|
                    0 <= i < rows.len() && row_passes(g, d, filter, #[trigger] rows[i])
                        && rows[i].0 == k && row_of(g, rows[i].1) == Ok::<Document, EngineError>(
                        m,
                    );
                if i < n {
                    assert(init[i] == rows[i]);
                    assert(before.contains((k, m)));
                    let x = choose|x: int| 0 <= x < before.len() && before[x] == (k, m);
                    assert(all[x] == (k, m));
                } else {
                    assert(all[before.len() as int] == (k, m));
                }
            }
        }
    }
}

/// Rows that can all be read are gathered the same whether or not unreadable
/// ones would be passed over.
proof fn lemma_lenient<
    G: Fn(&Vec<u8>) -> Result<Document, EngineError>,
    D: Fn(&Expr, &Document) -> Result<bool, EngineError>,
    T: Fn(&Document, &Document) -> bool,
>(g: G, d: D, t: T, filter: Option<Expr>, mode: CollectMode, rows: Seq<StoredRow>)
    requires
        forall|i: int| 0 <= i < rows.len() ==> row_of(g, (#[trigger] rows[i]).1) is Ok,
    ensures
        gathered(g, d, t, filter, mode, true, rows) == gathered(g, d, t, filter, mode, false, rows),
    decreases rows.len(),
{
    if rows.len() > 0 {
        let init = rows.drop_last();
        assert forall|i: int| 0 <= i < init.len() implies row_of(g, (#[trigger] init[i]).1) is Ok by {
            assert(init[i] == rows[i]);
        }
        lemma_lenient(g, d, t, filter, mode, init);
        assert(row_of(g, rows[rows.len() - 1].1) is Ok);
    }
}

/// What comes by every match, and by no row twice, gathers the matches.
pub proof fn lemma_gathers_the_matches<
    G: Fn(&Vec<u8>) -> Result<Document, EngineError>,
    D: Fn(&Expr, &Document) -> Result<bool, EngineError>,
    T: Fn(&Document, &Document) -> bool,
>(
    g: G,
    d: D,
    t: T,
    filter: Option<Expr>,
    mode: CollectMode,
    lenient: bool,
    rows: Seq<StoredRow>,
    stored: Seq<StoredRow>,
)
    requires
        mode.stop_at is None,
        live_rows(g, d, filter, rows),
        stored.no_duplicates(),
        forall|i: int| 0 <= i < stored.len() ==> rows.contains(#[trigger] stored[i]),
        forall|i: int|
            0 <= i < rows.len() && row_passes(g, d, filter, #[trigger] rows[i])
                ==> stored.contains(rows[i]),
    ensures
        matching_rows(g, d, filter, rows) matches Ok(all) && all.no_duplicates() && (gathered(
            g,
            d,
            t,
            filter,
            mode,
            lenient,
            stored,
        ) matches Ok(c) && keyed(c.rows).no_duplicates() && keyed(c.rows).to_multiset()
            == all.to_multiset()),
{
    assert(live_rows(g, d, filter, stored)) by {
        assert forall|i: int, j: int| 0 <= i < j < stored.len() implies (#[trigger] stored[i]).0@
            != (#[trigger] stored[j]).0@ by {
            let a = choose|a: int| 0 <= a < rows.len() && rows[a] == stored[i];
            let b = choose|b: int| 0 <= b < rows.len() && rows[b] == stored[j];
            assert(stored[i] != stored[j]);
            if a < b {
                assert(rows[a].0@ != rows[b].0@);
            } else {
                assert(a != b);
                assert(rows[b].0@ != rows[a].0@);
            }
        }
        assert forall|i: int| 0 <= i < stored.len() implies (row_of(g, (#[trigger] stored[i]).1)
            matches Ok(doc) && passes(d, filter, doc_view(doc)) is Ok) by {
            let a = choose|a: int| 0 <= a < rows.len() && rows[a] == stored[i];
            assert(row_of(g, rows[a].1) is Ok);
        }
    }
    lemma_matching(g, d, filter, rows);
    lemma_matching(g, d, filter, stored);
    unlimited_gather_is_the_filter(g, d, t, filter, mode, stored);
    assert forall|i: int| 0 <= i < stored.len() implies row_of(g, (#[trigger] stored[i]).1) is Ok by {
        assert(live_rows(g, d, filter, stored));
    }
    lemma_lenient(g, d, t, filter, mode, stored);
    let all = matching_rows(g, d, filter, rows)->Ok_0;
    let got = matching_rows(g, d, filter, stored)->Ok_0;
    assert forall|x: (Vec<u8>, Document)| all.contains(x) == got.contains(x) by {
        let (k, doc) = x;
        if all.contains((k, doc)) {
            let i = choose|i: int|
                0 <= i < rows.len() && row_passes(g, d, filter, #[trigger] rows[i]) && rows[i].0
                    == k && row_of(g, rows[i].1) == Ok::<Document, EngineError>(doc);
            assert(stored.contains(rows[i]));
            let j = choose|j: int| 0 <= j < stored.len() && stored[j] == rows[i];
            assert(row_passes(g, d, filter, stored[j]));
            assert(got.contains((k, doc)));
        }
        if got.contains((k, doc)) {
            let j = choose|j: int|
                0 <= j < stored.len() && row_passes(g, d, filter, #[trigger] stored[j])
                    && stored[j].0 == k && row_of(g, stored[j].1) == Ok::<Document, EngineError>(
                    doc,
                );
            let i = choose|i: int| 0 <= i < rows.len() && rows[i] == stored[j];
            assert(row_passes(g, d, filter, rows[i]));
            assert(all.contains((k, doc)));
        }
    }
    all.lemma_multiset_has_no_duplicates();
    got.lemma_multiset_has_no_duplicates();
    all.to_multiset_ensures();
    got.to_multiset_ensures();
    assert forall|x: (Vec<u8>, Document)| #[trigger]
        all.to_multiset().count(x) == got.to_multiset().count(x) by {
        if all.contains(x) {
            assert(got.contains(x));
            assert(all.to_multiset().contains(x));
            assert(got.to_multiset().contains(x));
        } else {
            assert(!got.contains(x));
        }
    }
    assert(all.to_multiset() =~= got.to_multiset());
}

/// A gather without a limit gives the same rows whichever way it goes: exactly
/// the live rows that pass the filter, each once, whatever order is asked for,
/// whichever indexes there are and however the rows along the way are
/// collected. Where a geo index serves, its ranges cover the matches.
pub proof fn every_way_gives_the_matching_rows<
    F: Fn(&Value) -> Vec<u8>,
    G: Fn(&Vec<u8>) -> Result<Document, EngineError>,
    D: Fn(&Expr, &Document) -> Result<bool, EngineError>,
    T: Fn(&Document, &Document) -> bool,
>(
    key: F,
    at: Columns,
    near: Nearby,
    g: G,
    d: D,
    t: T,
    filter: Option<Expr>,
    pk: Seq<Seq<char>>,
    geo: bool,
    order: Option<RequestView>,
    limited: bool,
    indexes: Seq<(String, IndexDef)>,
    table: Seq<char>,
    rows: Seq<StoredRow>,
    entries: Map<Seq<char>, Seq<EntryView>>,
    way: Way,
    stored: Seq<StoredRow>,
    kind: WalkKind,
    ordered: bool,
    exact: bool,
)
    requires
        live_rows(g, d, filter, rows),
        compares_by_keys(key, at, g, d, filter, rows),
        geo ==> covers_matches(near, g, d, filter, rows),
        indexes_hold(key, at, g, indexes, table, rows, entries),
        may_go(
            way,
            pk,
            filter,
            constraints(key, filter_comparisons(filter)),
            geo,
            order,
            limited,
            indexes,
            table,
        ),
        stored_along(key, at, near, g, pk, way, rows, entries, stored),
    ensures
        matching_rows(g, d, filter, rows) matches Ok(all) && all.no_duplicates() && (gathered(
            g,
            d,
            t,
            filter,
            walk_mode(kind, ordered, exact, None),
            kind == WalkKind::KeyRange,
            stored,
        ) matches Ok(c) && keyed(c.rows).no_duplicates() && keyed(c.rows).to_multiset()
            == all.to_multiset()),
{
    let mode = walk_mode(kind, ordered, exact, None);
    assert forall|i: int| 0 <= i < stored.len() implies rows.contains(#[trigger] stored[i]) by {
        assert(stored.contains(stored[i]));
    }
    assert forall|i: int|
        0 <= i < rows.len() && row_passes(g, d, filter, #[trigger] rows[i]) implies stored.contains(
        rows[i],
    ) by {
        lemma_matches_are_along(
            key,
            at,
            near,
            g,
            filter,
            pk,
            geo,
            order,
            limited,
            indexes,
            table,
            rows,
            entries,
            way,
            i,
        );
        assert(rows.contains(rows[i]));
    }
    lemma_gathers_the_matches(
        g,
        d,
        t,
        filter,
        mode,
        kind == WalkKind::KeyRange,
        rows,
        stored,
    );
}

/// Whether a planned access, with its choice of an index settled, goes a way.
pub open spec fn goes(a: Access<'_>, plan: Option<IndexPlan<'_>>, way: Way) -> bool {
    match way {
        Way::Direct(d) => access_is(a, d),
        Way::Index(c) => a is Index && (plan matches Some(p) && plan_is(p, c)),
        Way::Table => a is Index && plan is None,
    }
}

/// Whatever a gather's plan is settled to, it goes one of the ways that give
/// the matching rows.
pub proof fn a_plan_goes_one_of_the_ways(
    a: Access<'_>,
    plan: Option<IndexPlan<'_>>,
    pk: Seq<Seq<char>>,
    filter: Option<Expr>,
    cs: Seq<ConstraintView>,
    geo: bool,
    order: Option<RequestView>,
    limited: bool,
    indexes: Seq<(String, IndexDef)>,
    table: Seq<char>,
)
    requires
        match direct_access(pk, filter, cs, geo, order, limited) {
            Some(d) => access_is(a, d),
            None => a matches Access::Index(choice) && choice_is(
                choice,
                best_of(indexes, table, cs, index_order(order)),
                order is Some && limited,
            ) && match choice {
                IndexChoice::Scan => plan is None,
                IndexChoice::Use(p) => plan == Some(p),
                IndexChoice::Probe { sorted, unsorted } => plan == Some(sorted) || plan == Some(
                    unsorted,
                ),
            },
        },
    ensures
        exists|way: Way| #[trigger]
            goes(a, plan, way) && may_go(
                way,
                pk,
                filter,
                cs,
                geo,
                order,
                limited,
                indexes,
                table,
            ),
{
    let way = match direct_access(pk, filter, cs, geo, order, limited) {
        Some(d) => Way::Direct(d),
        None => {
            let b = best_of(indexes, table, cs, index_order(order));
            match plan {
                None => Way::Table,
                Some(p) => if b.sorted is Some && plan_is(p, b.sorted->0) {
                    Way::Index(b.sorted->0)
                } else {
                    Way::Index(b.unsorted->0)
                },
            }
        },
    };
    assert(goes(a, plan, way));
    assert(may_go(way, pk, filter, cs, geo, order, limited, indexes, table));
}

} // verus!
