//! Gathering rows: the access path of a read, and how the rows that come along
//! it are collected.

use vstd::prelude::*;

use crate::ast::Expr;
use crate::catalog::def_of;
use crate::constraints::constraint_on;
use crate::constraints::constraint_views;
use crate::constraints::constraints;
use crate::constraints::filter_comparisons;
use crate::constraints::filter_constraints;
use crate::constraints::find_col;
use crate::constraints::is_key_function;
use crate::constraints::lemma_place_of_col;
use crate::constraints::pointee;
use crate::constraints::ConstraintView;
use crate::database::Database;
use crate::error::EngineError;
use crate::error::ErrorView;
use crate::order::first_few;
use crate::plan::best_of;
use crate::plan::choice_is;
use crate::plan::hi_of;
use crate::plan::lo_of;
use crate::plan::pk_point_key;
use crate::plan::pk_prefix_scan_range;
use crate::plan::pk_range;
use crate::plan::plan_index;
use crate::plan::point_values;
use crate::plan::tuple;
use crate::plan::IndexChoice;
use crate::plan::OrderView;
use crate::point_keys::pk_point_keys;
use crate::point_keys::point_tuples;
use crate::point_keys::tuples;
use crate::text::str_eq;
use crate::text::views;
use crate::value::Value;

verus! {

/// An order requested of a gather: the leading column, whether it descends,
/// and whether it is the whole of the order.
pub struct OrderRequest<'a> {
    pub col: &'a String,
    pub descending: bool,
    pub exact: bool,
}

/// An order request by what it asks for: the column, whether it descends, and
/// whether it is the whole of the order.
pub type RequestView = (Seq<char>, bool, bool);

/// An order request by what it asks for.
pub open spec fn request_view(o: Option<OrderRequest<'_>>) -> Option<RequestView> {
    match o {
        Some(r) => Some((r.col@, r.descending, r.exact)),
        None => None,
    }
}

/// The way to the rows of a read.
pub enum Access<'a> {
    /// One point read: every key column is pinned to one value.
    Point(Vec<&'a Value>),
    /// A bounded set of point reads.
    Points(Vec<Vec<&'a Value>>),
    /// The ranges of a geo index.
    Geo,
    /// A slice of the table, between two key tuples.
    KeyRange { start: Vec<&'a Value>, end: Vec<&'a Value> },
    /// The table walked in key order, within optional bounds on its first key
    /// column.
    KeyOrder { lo: Option<&'a Value>, hi: Option<&'a Value>, descending: bool },
    /// A secondary index, or the whole table where none serves.
    Index(IndexChoice<'a>),
}

/// The ways that do not need a secondary index.
pub enum DirectView {
    Point(Seq<Value>),
    Points(Seq<Seq<Value>>),
    Geo,
    KeyRange(Seq<Value>, Seq<Value>),
    KeyOrder(Option<Value>, Option<Value>, bool),
}

/// Whether walking the table in key order serves a requested order: it is
/// exactly the first key column, going up, or going down with a limit.
pub open spec fn key_order_serves(
    pk: Seq<Seq<char>>,
    order: Option<RequestView>,
    limited: bool,
) -> bool {
    order matches Some(o) && o.2 && pk.len() > 0 && o.0 == pk[0] && (!o.1 || limited)
}

/// The way to the rows that the primary key alone gives, the first that
/// applies: a point, a set of points, a geo index, a slice of the table, or
/// the table in key order.
pub open spec fn direct_access(
    pk: Seq<Seq<char>>,
    filter: Option<Expr>,
    cs: Seq<ConstraintView>,
    geo: bool,
    order: Option<RequestView>,
    limited: bool,
) -> Option<DirectView> {
    if point_values(pk, cs) is Some {
        Some(DirectView::Point(point_values(pk, cs)->0))
    } else if point_tuples(pk, filter) is Some {
        Some(DirectView::Points(point_tuples(pk, filter)->0))
    } else if geo {
        Some(DirectView::Geo)
    } else if pk_range(pk, cs) is Some {
        let r = pk_range(pk, cs)->0;
        Some(DirectView::KeyRange(r.0, r.1))
    } else if key_order_serves(pk, order, limited) {
        let c = constraint_on(cs, pk[0]);
        Some(DirectView::KeyOrder(lo_of(c), hi_of(c), (order->0).1))
    } else {
        None
    }
}

/// Whether an access path is this direct one.
pub open spec fn access_is(a: Access<'_>, d: DirectView) -> bool {
    match (a, d) {
        (Access::Point(t), DirectView::Point(v)) => tuple(t@) == v,
        (Access::Points(ts), DirectView::Points(vs)) => tuples(ts@) == vs,
        (Access::Geo, DirectView::Geo) => true,
        (Access::KeyRange { start, end }, DirectView::KeyRange(s, e)) => tuple(start@) == s
            && tuple(end@) == e,
        (
            Access::KeyOrder { lo, hi, descending },
            DirectView::KeyOrder(l, h, d),
        ) => pointee(lo) == l && pointee(hi) == h && descending == d,
        _ => false,
    }
}

/// An order request as the index planner reads it.
pub open spec fn index_order(order: Option<RequestView>) -> Option<OrderView> {
    match order {
        Some(o) => Some(OrderView { col: o.0, descending: o.1 }),
        None => None,
    }
}

impl Database {
    /// Plans the gather of the rows of `table` that a filter lets through, in
    /// a requested order and up to a limit. `geo` says whether a geo index
    /// serves the filter; `key` gives the order key of a literal.
    pub fn plan_gather<'a, F: Fn(&Value) -> Vec<u8>>(
        &self,
        table: &str,
        filter: &'a Option<Expr>,
        geo: bool,
        order: Option<OrderRequest<'_>>,
        limited: bool,
        key: &F,
    ) -> (r: Result<Access<'a>, EngineError>)
        requires
            self.wf(),
            is_key_function(*key),
        ensures
            !self@.cat.tables.dom().contains(table@) ==> (r matches Err(e) && e@
                == ErrorView::TableNotFound(table@)),
            self@.cat.tables.dom().contains(table@) ==> (r matches Ok(a) && ({
                let pk = self@.cat.tables[table@].primary_key;
                let cs = constraints(*key, filter_comparisons(*filter));
                match direct_access(pk, *filter, cs, geo, request_view(order), limited) {
                    Some(d) => access_is(a, d),
                    None => a matches Access::Index(choice) && choice_is(
                        choice,
                        best_of(
                            self.catalog.indexes.entries@,
                            table@,
                            cs,
                            index_order(request_view(order)),
                        ),
                        order is Some && limited,
                    ),
                }
            })),
    {
        let table_owned = table.to_owned();
        let pk = match def_of(&self.catalog.tables, &table_owned) {
            None => {
                return Err(EngineError::TableNotFound(table_owned));
            },
            Some(d) => &d.primary_key,
        };
        let cs = filter_constraints(filter, key);
        if let Some(t) = pk_point_key(pk, &cs) {
            return Ok(Access::Point(t));
        }
        if let Some(ts) = pk_point_keys(pk, filter) {
            return Ok(Access::Points(ts));
        }
        if geo {
            return Ok(Access::Geo);
        }
        if let Some((start, end)) = pk_prefix_scan_range(pk, &cs) {
            return Ok(Access::KeyRange { start, end });
        }
        let mut wanted: Option<(&str, bool)> = None;
        if let Some(o) = &order {
            proof {
                assert(views(pk@).len() == pk@.len());
                if pk@.len() > 0 {
                    assert(views(pk@)[0] == pk@[0]@);
                }
            }
            if o.exact && pk.len() > 0 && str_eq(o.col.as_str(), pk[0].as_str()) && (!o.descending
                || limited) {
                let p: usize = find_col(&cs, pk[0].as_str());
                proof {
                    lemma_place_of_col(constraint_views(cs@), pk@[0]@);
                }
                if p < cs.len() {
                    proof {
                        assert(constraint_views(cs@)[p as int] == cs@[p as int]@);
                    }
                    return Ok(
                        Access::KeyOrder {
                            lo: cs[p].lo,
                            hi: cs[p].hi,
                            descending: o.descending,
                        },
                    );
                }
                return Ok(Access::KeyOrder { lo: None, hi: None, descending: o.descending });
            }
            wanted = Some((o.col.as_str(), o.descending));
        }
        Ok(Access::Index(plan_index(&self.catalog.indexes, table, &cs, wanted, limited)))
    }
}

/// How the rows along an access path are collected.
pub struct CollectMode {
    /// Stop once this many rows are in.
    pub stop_at: Option<usize>,
    /// Go on past that for rows that tie with the last one.
    pub keep_ties: bool,
    /// Whether the rows come out in the requested order.
    pub sorted: bool,
}

/// What the planner's way to the rows is.
#[derive(Clone, Copy, Debug, PartialEq, Eq, Structural)]
pub enum WalkKind {
    Point,
    Points,
    Geo,
    KeyRange,
    KeyOrder,
    /// An index walk, and whether its rows come in the requested order.
    Index(bool),
    /// The whole table.
    Table,
}

/// How rows are collected along a walk. A walk may stop at the limit where its
/// rows come in the requested order or none was requested; an order with more
/// keys than the walk follows keeps the ties of the last row.
pub open spec fn walk_mode(
    kind: WalkKind,
    ordered: bool,
    exact: bool,
    limit: Option<usize>,
) -> CollectMode {
    CollectMode {
        stop_at: match kind {
            WalkKind::Point | WalkKind::Points | WalkKind::Geo => None,
            WalkKind::KeyOrder => limit,
            WalkKind::KeyRange | WalkKind::Table => if ordered {
                None
            } else {
                limit
            },
            WalkKind::Index(sorted) => if sorted || !ordered {
                limit
            } else {
                None
            },
        },
        keep_ties: kind == WalkKind::Index(true) && ordered && !exact,
        sorted: match kind {
            WalkKind::Point | WalkKind::KeyOrder => true,
            WalkKind::Points | WalkKind::KeyRange => !ordered,
            WalkKind::Geo | WalkKind::Table => false,
            WalkKind::Index(sorted) => sorted && (!ordered || exact),
        },
    }
}

/// How rows are collected along a walk.
pub fn collect_mode(kind: WalkKind, ordered: bool, exact: bool, limit: Option<usize>) -> (r:
    CollectMode)
    ensures
        r == walk_mode(kind, ordered, exact, limit),
{
    match kind {
        WalkKind::Point => CollectMode { stop_at: None, keep_ties: false, sorted: true },
        WalkKind::Points => CollectMode { stop_at: None, keep_ties: false, sorted: !ordered },
        WalkKind::Geo => CollectMode { stop_at: None, keep_ties: false, sorted: false },
        WalkKind::KeyOrder => CollectMode { stop_at: limit, keep_ties: false, sorted: true },
        WalkKind::KeyRange => CollectMode {
            stop_at: if ordered {
                None
            } else {
                limit
            },
            keep_ties: false,
            sorted: !ordered,
        },
        WalkKind::Table => CollectMode {
            stop_at: if ordered {
                None
            } else {
                limit
            },
            keep_ties: false,
            sorted: false,
        },
        WalkKind::Index(sorted) => CollectMode {
            stop_at: if sorted || !ordered {
                limit
            } else {
                None
            },
            keep_ties: sorted && ordered && !exact,
            sorted: sorted && (!ordered || exact),
        },
    }
}

/// A row along a walk: its key, its document, whether it passes the filter,
/// and whether its leading sort value ties with the row the limit fell on.
pub struct WalkedRow<D> {
    pub key: Vec<u8>,
    pub doc: D,
    pub matched: bool,
    pub ties: bool,
}

/// Collects rows along a walk.
pub struct RowCollector<D> {
    pub stop_at: Option<usize>,
    pub keep_ties: bool,
    /// Whether the limit has been reached and only ties are taken.
    pub only_ties: bool,
    pub rows: Vec<WalkedRow<D>>,
}

/// A collector's state: whether only ties are taken, and the rows.
pub struct CollectView<D> {
    pub only_ties: bool,
    pub stopped: bool,
    pub rows: Seq<WalkedRow<D>>,
}

/// A collector after one more row.
pub open spec fn collect_step<D>(
    c: CollectView<D>,
    row: WalkedRow<D>,
    stop_at: Option<usize>,
    keep_ties: bool,
) -> CollectView<D> {
    if !row.matched {
        c
    } else if c.only_ties && !row.ties {
        CollectView { stopped: true, ..c }
    } else {
        let rows = c.rows.push(row);
        let full = !c.only_ties && (stop_at matches Some(lim) && rows.len() >= lim);
        CollectView {
            only_ties: c.only_ties || (full && keep_ties),
            stopped: full && !keep_ties,
            rows,
        }
    }
}

impl<D> RowCollector<D> {
    /// No row yet.
    pub fn new(mode: &CollectMode) -> (r: RowCollector<D>)
        ensures
            r.stop_at == mode.stop_at,
            r.keep_ties == mode.keep_ties,
            !r.only_ties,
            r.rows@ == Seq::<WalkedRow<D>>::empty(),
    {
        RowCollector {
            stop_at: mode.stop_at,
            keep_ties: mode.keep_ties,
            only_ties: false,
            rows: Vec::new(),
        }
    }

    /// Takes one row of the walk; says whether the walk can stop.
    pub fn feed(&mut self, row: WalkedRow<D>) -> (stop: bool)
        ensures
            final(self).stop_at == old(self).stop_at,
            final(self).keep_ties == old(self).keep_ties,
            ({
                let c = CollectView {
                    only_ties: old(self).only_ties,
                    stopped: false,
                    rows: old(self).rows@,
                };
                let d = collect_step(c, row, old(self).stop_at, old(self).keep_ties);
                final(self).only_ties == d.only_ties && final(self).rows@ == d.rows && stop
                    == d.stopped
            }),
    {
        if !row.matched {
            return false;
        }
        if self.only_ties {
            if !row.ties {
                return true;
            }
            self.rows.push(row);
            return false;
        }
        self.rows.push(row);
        let full: bool = match self.stop_at {
            Some(lim) => self.rows.len() >= lim,
            None => false,
        };
        if full && self.keep_ties {
            self.only_ties = true;
            return false;
        }
        full
    }
}

/// A collector after a run of rows, stopping where it says so.
pub open spec fn collected<D>(
    c: CollectView<D>,
    items: Seq<WalkedRow<D>>,
    stop_at: Option<usize>,
    keep_ties: bool,
) -> CollectView<D>
    decreases items.len(),
{
    if items.len() == 0 || c.stopped {
        c
    } else {
        collected(
            collect_step(c, items[0], stop_at, keep_ties),
            items.drop_first(),
            stop_at,
            keep_ties,
        )
    }
}

/// The rows of a walk that pass the filter.
pub open spec fn matching<D>(items: Seq<WalkedRow<D>>) -> Seq<WalkedRow<D>>
    decreases items.len(),
{
    if items.len() == 0 {
        Seq::empty()
    } else if items[0].matched {
        seq![items[0]] + matching(items.drop_first())
    } else {
        matching(items.drop_first())
    }
}

/// The longest run of ties at the front.
pub open spec fn leading_ties<D>(items: Seq<WalkedRow<D>>) -> Seq<WalkedRow<D>>
    decreases items.len(),
{
    if items.len() == 0 || !items[0].ties {
        Seq::empty()
    } else {
        seq![items[0]] + leading_ties(items.drop_first())
    }
}

/// Without a limit every matching row is collected, in walk order.
pub proof fn unlimited_walk_keeps_every_match<D>(
    c: CollectView<D>,
    items: Seq<WalkedRow<D>>,
    keep_ties: bool,
)
    requires
        !c.only_ties,
        !c.stopped,
    ensures
        collected(c, items, None, keep_ties).rows == c.rows + matching(items),
    decreases items.len(),
{
    if items.len() == 0 {
        assert(c.rows + matching(items) =~= c.rows);
    } else {
        let d = collect_step(c, items[0], None, keep_ties);
        unlimited_walk_keeps_every_match(d, items.drop_first(), keep_ties);
        if items[0].matched {
            assert(c.rows.push(items[0]) + matching(items.drop_first()) =~= c.rows + matching(
                items,
            ));
        }
    }
}

/// A limited walk collects the first matching rows and no more: as many as the
/// limit, and at least the one that is met before the limit is looked at.
pub proof fn limited_walk_keeps_the_first_matches<D>(
    c: CollectView<D>,
    items: Seq<WalkedRow<D>>,
    lim: usize,
)
    requires
        !c.only_ties,
        !c.stopped,
        c.rows.len() < (if lim == 0 {
            1
        } else {
            lim as int
        }),
    ensures
        collected(c, items, Some(lim), false).rows == c.rows + first_few(
            matching(items),
            ((if lim == 0 {
                1
            } else {
                lim as int
            }) - c.rows.len()) as nat,
        ),
    decreases items.len(),
{
    let n = if lim == 0 {
        1
    } else {
        lim as int
    };
    if items.len() == 0 {
        let want = (n - c.rows.len()) as nat;
        assert(first_few(matching(items), want) =~= Seq::<WalkedRow<D>>::empty());
        assert(c.rows + first_few(matching(items), want) =~= c.rows);
    } else {
        let d = collect_step(c, items[0], Some(lim), false);
        let rest = items.drop_first();
        if !items[0].matched {
            limited_walk_keeps_the_first_matches(c, rest, lim);
        } else {
            let want = (n - c.rows.len()) as nat;
            assert(matching(items).len() == 1 + matching(rest).len());
            if d.stopped {
                assert(want == 1);
                assert(collected(d, rest, Some(lim), false) == d);
                assert(matching(items) == seq![items[0]] + matching(rest));
                assert(first_few(matching(items), want) =~= seq![items[0]]);
                assert(c.rows.push(items[0]) =~= c.rows + seq![items[0]]);
            } else {
                limited_walk_keeps_the_first_matches(d, rest, lim);
                assert(c.rows.push(items[0]) + first_few(matching(rest), (want - 1) as nat)
                    =~= c.rows + first_few(matching(items), want));
            }
        }
    }
}

/// Once the limit is met, exactly the rows that tie with the boundary are
/// collected on, up to the first match that does not.
proof fn lemma_ties_collected<D>(c: CollectView<D>, items: Seq<WalkedRow<D>>, lim: usize)
    requires
        c.only_ties,
        !c.stopped,
    ensures
        collected(c, items, Some(lim), true).rows == c.rows + leading_ties(matching(items)),
    decreases items.len(),
{
    if items.len() == 0 {
        assert(c.rows + leading_ties(matching(items)) =~= c.rows);
    } else {
        let d = collect_step(c, items[0], Some(lim), true);
        let rest = items.drop_first();
        if !items[0].matched {
            lemma_ties_collected(c, rest, lim);
        } else {
            assert(matching(items).drop_first() =~= matching(rest));
            assert(matching(items)[0] == items[0]);
            if d.stopped {
                assert(c.rows + leading_ties(matching(items)) =~= c.rows);
                if rest.len() > 0 {
                    assert(collected(d, rest, Some(lim), true) == d);
                }
            } else {
                lemma_ties_collected(d, rest, lim);
                assert(c.rows.push(items[0]) + leading_ties(matching(rest)) =~= c.rows
                    + leading_ties(matching(items)));
            }
        }
    }
}

/// A limited walk under an order with further keys loses no row that could be
/// on the page: it collects the first matching rows up to the limit and every
/// following match that ties with the last of them.
pub proof fn tied_rows_at_the_limit_are_kept<D>(
    c: CollectView<D>,
    items: Seq<WalkedRow<D>>,
    lim: usize,
)
    requires
        !c.only_ties,
        !c.stopped,
        lim > 0,
        c.rows.len() < lim,
    ensures
        ({
            let ms = matching(items);
            let want = lim - c.rows.len();
            collected(c, items, Some(lim), true).rows == (if ms.len() < want {
                c.rows + ms
            } else {
                c.rows + ms.take(want) + leading_ties(ms.skip(want))
            })
        }),
    decreases items.len(),
{
    let ms = matching(items);
    let want = lim - c.rows.len();
    if items.len() == 0 {
        assert(c.rows + ms =~= c.rows);
    } else {
        let d = collect_step(c, items[0], Some(lim), true);
        let rest = items.drop_first();
        if !items[0].matched {
            tied_rows_at_the_limit_are_kept(c, rest, lim);
        } else {
            let tail = matching(rest);
            assert(ms =~= seq![items[0]] + tail);
            if d.only_ties {
                lemma_ties_collected(d, rest, lim);
                assert(want == 1);
                assert(ms.skip(1) =~= tail);
                assert(c.rows.push(items[0]) + leading_ties(tail) =~= c.rows + ms.take(1)
                    + leading_ties(tail));
            } else {
                tied_rows_at_the_limit_are_kept(d, rest, lim);
                if ms.len() < want {
                    assert(c.rows.push(items[0]) + tail =~= c.rows + ms);
                } else {
                    assert(ms.skip(want) =~= tail.skip(want - 1));
                    assert(c.rows.push(items[0]) + tail.take(want - 1) =~= c.rows + ms.take(
                        want,
                    ));
                }
            }
        }
    }
}

/// How deep a paged scan of key stamps starts: just before the inclusive start
/// key, which the walk then admits again.
pub fn stamps_cursor(start: &Vec<u8>) -> (r: Option<Vec<u8>>)
    ensures
        start@.len() == 0 ==> r is None,
        start@.len() > 0 ==> (r matches Some(c) && c@ == start@.drop_last()),
{
    if start.len() == 0 {
        return None;
    }
    let mut out = crate::bytes::copy_bytes(start.as_slice());
    out.pop();
    proof {
        assert(out@ =~= start@.drop_last());
    }
    Some(out)
}

} // verus!
