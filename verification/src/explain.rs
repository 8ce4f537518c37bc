//! `EXPLAIN`: the plan the executor would choose, as rows of an aspect and a
//! decision. It asks the planner's own functions, so the answer follows what
//! would be executed.

use vstd::prelude::*;
use vstd::string::StringExecFns;

use crate::access::access_is;
use crate::access::direct_access;
use crate::access::index_order;
use crate::access::request_view;
use crate::access::Access;
use crate::access::DirectView;
use crate::access::OrderRequest;
use crate::access::RequestView;
use crate::ast::Expr;
use crate::ast::Select;
use crate::bytes::bytes_lt;
use crate::bytes::lemma_bytes_lt_irrefl;
use crate::catalog::def_of;
use crate::catalog::SearchIndexDef;
use crate::catalog::TableView;
use crate::constraints::constraints;
use crate::constraints::filter_comparisons;
use crate::constraints::filter_constraints;
use crate::constraints::is_key_function;
use crate::database::Database;
use crate::error::EngineError;
use crate::error::ErrorView;
use crate::execute::encode_tuple;
use crate::execute::encoding;
use crate::execute::is_encoder;
use crate::execute::row_view;
use crate::execute::tuple_view;
use crate::executor::gather_order;
use crate::lookup::vector_index_on;
use crate::model::ValueView;
use crate::namespace::split_name;
use crate::plan::best_of;
use crate::plan::choice_is;
use crate::plan::pk_point_key;
use crate::plan::point_values;
use crate::plan::Best;
use crate::plan::IndexChoice;
use crate::plan::IndexPlan;
use crate::plan::ScanView;
use crate::point_keys::key_views;
use crate::point_keys::lemma_routed;
use crate::point_keys::plan_global_probe;
use crate::point_keys::routed;
use crate::point_keys::tuples;
use crate::point_keys::unique_sorted;
use crate::projection::grouped;
use crate::projection::is_grouped;
use crate::results::ResultSet;
use crate::results::ResultView;
use crate::search::combine_queries;
use crate::search::combined;
use crate::search::fields_into;
use crate::search::is_score_call;
use crate::search::split_filter;
use crate::search::split_search_filter;
use crate::search::split_view;
use crate::search::SplitView;
use crate::search_plan::by_score;
use crate::search_plan::choose_strategy;
use crate::search_plan::is_cover_test;
use crate::search_plan::serving_index;
use crate::search_plan::strategy;
use crate::search_plan::SearchStrategy;
use crate::select_plan::dotted;
use crate::select_plan::gather_limit;
use crate::select_plan::index_order_column;
use crate::select_plan::show_names;
use crate::select_plan::simple_fetch_limit;
use crate::statement::Statement;
use crate::text::cat;
use crate::text::cat3;
use crate::text::decimal;
use crate::text::decimal_of;
use crate::text::pieces;
use crate::text::split;
use crate::value::Value;

verus! {

/// The way to the rows of a `SELECT`, as it is explained.
#[allow(inconsistent_fields)]
pub enum ReadPath<'a> {
    /// A time-series table.
    Series,
    /// A vector index, if there is one, and whether candidates are filtered.
    Vector { index: Option<String>, filtered: bool },
    /// A grouped search, inside the index or over the matching rows.
    SearchGroups { index: String, pushdown: bool },
    /// The best matches of a search.
    SearchTop { index: String, k: u64, residual: bool },
    /// A search ordered by a column, with a limit.
    SearchSorted { index: String, residual: bool },
    /// Every match of a search.
    SearchAll { index: String, residual: bool },
    /// A geo index, and the number of ranges read from it.
    Geo { index: String, ranges: usize },
    /// One row by its key.
    Point,
    /// The rows of these key tuples.
    Points(Vec<Vec<&'a Value>>),
    /// A secondary index.
    Index(IndexChoice<'a>),
    /// A routed global-index probe.
    Global(String),
    /// A slice of the table.
    KeyRange,
    /// The table in key order, whether it is bounded below and above, and
    /// whether it goes down.
    KeyOrder { lower: bool, upper: bool, descending: bool },
    /// The whole table.
    Table,
}

pub enum PathView {
    Series,
    Vector(Option<Seq<char>>, bool),
    SearchGroups(Seq<char>, bool),
    SearchTop(Seq<char>, u64, bool),
    SearchSorted(Seq<char>, bool),
    SearchAll(Seq<char>, bool),
    Geo(Seq<char>, nat),
    Point,
    Points(Seq<Seq<Value>>),
    Index(Best, bool),
    Global(Seq<char>),
    KeyRange,
    KeyOrder(bool, bool, bool),
    Table,
}

/// Whether a path is this one.
pub open spec fn path_is(p: ReadPath<'_>, v: PathView) -> bool {
    match (p, v) {
        (ReadPath::Series, PathView::Series) => true,
        (ReadPath::Vector { index, filtered }, PathView::Vector(i, f)) => crate::catalog::opt_view(
            index,
        ) == i && filtered == f,
        (
            ReadPath::SearchGroups { index, pushdown },
            PathView::SearchGroups(i, p),
        ) => index@ == i && pushdown == p,
        (
            ReadPath::SearchTop { index, k, residual },
            PathView::SearchTop(i, n, r),
        ) => index@ == i && k == n && residual == r,
        (
            ReadPath::SearchSorted { index, residual },
            PathView::SearchSorted(i, r),
        ) => index@ == i && residual == r,
        (ReadPath::SearchAll { index, residual }, PathView::SearchAll(i, r)) => index@ == i
            && residual == r,
        (ReadPath::Geo { index, ranges }, PathView::Geo(i, n)) => index@ == i && ranges == n,
        (ReadPath::Point, PathView::Point) => true,
        (ReadPath::Points(ts), PathView::Points(vs)) => tuples(ts@) == vs,
        (ReadPath::Index(ch), PathView::Index(b, limited)) => choice_is(ch, b, limited),
        (ReadPath::Global(i), PathView::Global(n)) => i@ == n,
        (ReadPath::KeyRange, PathView::KeyRange) => true,
        (
            ReadPath::KeyOrder { lower, upper, descending },
            PathView::KeyOrder(l, u, d),
        ) => lower == l && upper == u && descending == d,
        (ReadPath::Table, PathView::Table) => true,
        _ => false,
    }
}

/// The order that the gather of a query's rows is asked for: that of a query
/// over one table, and none where the rows go into a union.
pub open spec fn asked_order(sel: Select) -> Option<RequestView> {
    if sel.set_ops@.len() > 0 {
        None
    } else {
        gather_order(sel)
    }
}

/// Whether the gather of a query's rows may stop at a limit.
pub open spec fn asked_limit(sel: Select) -> bool {
    sel.set_ops@.len() == 0 && gather_limit(sel) is Some
}

/// The path of a search with the index `idx`: that of the strategy that the
/// search is planned with. A query that would be refused is explained as far as
/// its clauses go.
pub open spec fn search_path(sel: Select, s: SplitView, idx: Seq<char>) -> PathView {
    let residual = s.residual.len() > 0;
    match strategy(sel, s) {
        Ok(SearchStrategy::GroupedInIndex) => PathView::SearchGroups(idx, true),
        Ok(SearchStrategy::GroupTop) => PathView::SearchGroups(idx, false),
        Ok(SearchStrategy::GroupedRows) => PathView::SearchGroups(idx, false),
        Ok(SearchStrategy::Rerank { top }) => PathView::SearchTop(idx, top, residual),
        Ok(SearchStrategy::Ranked { k }) => PathView::SearchTop(idx, k, residual),
        Ok(SearchStrategy::Sorted { .. }) => PathView::SearchSorted(idx, residual),
        Ok(SearchStrategy::Unordered) => PathView::SearchAll(idx, residual),
        Ok(SearchStrategy::Gather) => PathView::SearchAll(idx, residual),
        Ok(SearchStrategy::After) => if sel.limit is Some && by_score(sel.order_by@) {
            PathView::SearchTop(idx, sel.limit->0, residual)
        } else if sel.limit is Some && sel.order_by@.len() == 1 && sel.order_by@[0].expr is Column {
            PathView::SearchSorted(idx, residual)
        } else {
            PathView::SearchAll(idx, residual)
        },
        Err(_) => if grouped(sel) {
            PathView::SearchGroups(idx, false)
        } else if sel.rerank is Some {
            PathView::SearchTop(idx, sel.rerank->0.top, residual)
        } else {
            PathView::SearchAll(idx, residual)
        },
    }
}

/// The path to the rows of a table: the access that its gather is planned
/// with. Where no local index serves, a global index that the filter pins is
/// probed. A joined table is read in full.
pub open spec fn keyed_path<F: Fn(&Value) -> Vec<u8>>(
    db: Database,
    def: TableView,
    sel: Select,
    geo: Option<(Seq<char>, nat)>,
    key: F,
) -> PathView {
    let cs = constraints(key, filter_comparisons(sel.filter));
    let es = db.catalog.indexes.entries@;
    let order = asked_order(sel);
    if sel.joins@.len() > 0 {
        PathView::Table
    } else {
        match direct_access(
            def.primary_key,
            sel.filter,
            cs,
            geo is Some,
            order,
            asked_limit(sel),
        ) {
            Some(DirectView::Point(_)) => PathView::Point,
            Some(DirectView::Points(ts)) => PathView::Points(ts),
            Some(DirectView::Geo) => PathView::Geo((geo->0).0, (geo->0).1),
            Some(DirectView::KeyRange(..)) => PathView::KeyRange,
            Some(DirectView::KeyOrder(lo, hi, descending)) => PathView::KeyOrder(
                lo is Some,
                hi is Some,
                descending,
            ),
            None => {
                let best = best_of(es, sel.from@, cs, index_order(order));
                if best.sorted is Some || best.unsorted is Some {
                    PathView::Index(best, order is Some && asked_limit(sel))
                } else if sel.filter is Some && routed(es, sel.from@, sel.filter->0) is Some {
                    PathView::Global(routed(es, sel.from@, sel.filter->0)->0)
                } else {
                    PathView::Table
                }
            },
        }
    }
}

/// Whether a path explains an access.
pub open spec fn explains(p: PathView, a: Access<'_>) -> bool {
    match a {
        Access::Point(_) => p is Point,
        Access::Points(ts) => p == PathView::Points(tuples(ts@)),
        Access::Geo => p is Geo,
        Access::KeyRange { .. } => p is KeyRange,
        Access::KeyOrder { lo, hi, descending } => p == PathView::KeyOrder(
            lo is Some,
            hi is Some,
            descending,
        ),
        Access::Index(choice) => match p {
            PathView::Index(best, limited) => !(choice is Scan) && choice_is(choice, best, limited),
            PathView::Global(_) => choice is Scan,
            PathView::Table => choice is Scan,
            _ => false,
        },
    }
}

/// The path explained is the one planned: for the order and the limit that a
/// query over one table asks of its gather, whatever access the planner gives
/// is the one explained. A probe of a global index stands for a table that no
/// local index serves.
pub proof fn explained_path_is_the_planned_one<F: Fn(&Value) -> Vec<u8>>(
    db: Database,
    def: TableView,
    sel: Select,
    geo: Option<(Seq<char>, nat)>,
    key: F,
    a: Access<'_>,
)
    requires
        sel.joins@.len() == 0,
        ({
            let cs = constraints(key, filter_comparisons(sel.filter));
            let limited = asked_limit(sel);
            match direct_access(
                def.primary_key,
                sel.filter,
                cs,
                geo is Some,
                asked_order(sel),
                limited,
            ) {
                Some(d) => access_is(a, d),
                None => a matches Access::Index(choice) && choice_is(
                    choice,
                    best_of(
                        db.catalog.indexes.entries@,
                        sel.from@,
                        cs,
                        index_order(asked_order(sel)),
                    ),
                    asked_order(sel) is Some && limited,
                ),
            }
        }),
    ensures
        explains(keyed_path(db, def, sel, geo, key), a),
{
}

/// The search explained is the one planned: an aggregation is explained as
/// pushed into the index exactly where it is, and a best-first search with the
/// number of hits that it fetches.
pub proof fn explained_search_is_the_planned_one(sel: Select, s: SplitView, idx: Seq<char>)
    requires
        strategy(sel, s) is Ok,
    ensures
        ({
            let st = strategy(sel, s)->Ok_0;
            let p = search_path(sel, s, idx);
            &&& p == PathView::SearchGroups(idx, true) <==> st is GroupedInIndex
            &&& st matches SearchStrategy::Rerank { top } ==> p matches PathView::SearchTop(_, k, _)
                && k == top
            &&& st matches SearchStrategy::Ranked { k } ==> p matches PathView::SearchTop(_, n, _)
                && n == k
            &&& st is Sorted ==> p is SearchSorted
            &&& st is Unordered || st is Gather ==> p is SearchAll
        }),
{
}

/// The way to the rows of a `SELECT`, or why it has none. `geo` is the geo
/// index that serves the filter and the number of its ranges.
pub open spec fn explained_path<
    F: Fn(&Value) -> Vec<u8>,
    C: Fn(&SearchIndexDef, &String) -> bool,
>(db: Database, sel: Select, geo: Option<(Seq<char>, nat)>, covers: C, key: F) -> Result<
    PathView,
    ErrorView,
> {
    if db@.cat.timeseries.dom().contains(sel.from@) {
        Ok(PathView::Series)
    } else if sel.nearest is Some {
        Ok(
            PathView::Vector(
                vector_index_on(
                    db.catalog.vector_indexes.entries@,
                    sel.from@,
                    sel.nearest->0.path@,
                ),
                sel.filter is Some,
            ),
        )
    } else {
        match split_filter(sel.filter) {
            Err(e) => Err(e),
            Ok(s) => match combined(s.queries) {
                Some(q) => match serving_index(
                    covers,
                    db.catalog.search_indexes.entries@,
                    sel.from@,
                    fields_into(q, Seq::empty()),
                ) {
                    Err(e) => Err(e),
                    Ok(idx) => Ok(search_path(sel, s, idx)),
                },
                None => if db@.cat.tables.dom().contains(sel.from@) {
                    Ok(keyed_path(db, db@.cat.tables[sel.from@], sel, geo, key))
                } else {
                    Err(ErrorView::TableNotFound(sel.from@))
                },
            },
        }
    }
}

/// A geo plan by the index's name.
pub open spec fn geo_view(geo: Option<(String, usize)>) -> Option<(Seq<char>, nat)> {
    match geo {
        Some((i, n)) => Some((i@, n as nat)),
        None => None,
    }
}

fn choose_search_path(sel: &Select, left: usize, index: String, Ghost(s): Ghost<SplitView>) -> (r:
    ReadPath<'static>)
    requires
        s.residual.len() == left,
    ensures
        path_is(r, search_path(*sel, s, index@)),
{
    let residual = left > 0;
    match choose_strategy(sel, left, Ghost(s)) {
        Ok(SearchStrategy::GroupedInIndex) => ReadPath::SearchGroups { index, pushdown: true },
        Ok(SearchStrategy::GroupTop) => ReadPath::SearchGroups { index, pushdown: false },
        Ok(SearchStrategy::GroupedRows) => ReadPath::SearchGroups { index, pushdown: false },
        Ok(SearchStrategy::Rerank { top }) => ReadPath::SearchTop { index, k: top, residual },
        Ok(SearchStrategy::Ranked { k }) => ReadPath::SearchTop { index, k, residual },
        Ok(SearchStrategy::Sorted { .. }) => ReadPath::SearchSorted { index, residual },
        Ok(SearchStrategy::Unordered) => ReadPath::SearchAll { index, residual },
        Ok(SearchStrategy::Gather) => ReadPath::SearchAll { index, residual },
        Ok(SearchStrategy::After) => {
            if let Some(l) = sel.limit {
                if sel.order_by.len() == 1 {
                    if sel.order_by[0].descending && is_score_call(&sel.order_by[0].expr) {
                        return ReadPath::SearchTop { index, k: l, residual };
                    }
                    if let Expr::Column(_) = &sel.order_by[0].expr {
                        return ReadPath::SearchSorted { index, residual };
                    }
                }
            }
            ReadPath::SearchAll { index, residual }
        },
        Err(_) => {
            if is_grouped(sel) {
                return ReadPath::SearchGroups { index, pushdown: false };
            }
            match &sel.rerank {
                Some(rr) => ReadPath::SearchTop { index, k: rr.top, residual },
                None => ReadPath::SearchAll { index, residual },
            }
        },
    }
}

/// The order that the gather of a query's rows is asked for.
fn order_asked<'a>(sel: &'a Select) -> (r: Option<OrderRequest<'a>>)
    ensures
        request_view(r) == asked_order(*sel),
{
    if sel.set_ops.len() > 0 || is_grouped(sel) {
        return None;
    }
    index_order_column(&sel.order_by)
}

impl Database {
    fn choose_keyed_path<'a, F: Fn(&Value) -> Vec<u8>>(
        &self,
        sel: &'a Select,
        geo: Option<(String, usize)>,
        key: &F,
    ) -> (r: Result<ReadPath<'a>, EngineError>)
        requires
            self.wf(),
            is_key_function(*key),
        ensures
            self@.cat.tables.dom().contains(sel.from@) ==> (r matches Ok(p) && path_is(
                p,
                keyed_path(*self, self@.cat.tables[sel.from@], *sel, geo_view(geo), *key),
            )),
            !self@.cat.tables.dom().contains(sel.from@) ==> (r matches Err(e) && e@
                == ErrorView::TableNotFound(sel.from@)),
    {
        if sel.joins.len() > 0 {
            return if self.catalog.tables.contains(&sel.from) {
                Ok(ReadPath::Table)
            } else {
                Err(EngineError::TableNotFound(sel.from.clone()))
            };
        }
        let limited = sel.set_ops.len() == 0 && simple_fetch_limit(sel).is_some();
        let access = match self.plan_gather(
            sel.from.as_str(),
            &sel.filter,
            geo.is_some(),
            order_asked(sel),
            limited,
            key,
        ) {
            Err(e) => {
                return Err(e);
            },
            Ok(a) => a,
        };
        match access {
            Access::Point(_t) => {
                return Ok(ReadPath::Point);
            },
            Access::Points(ts) => {
                return Ok(ReadPath::Points(ts));
            },
            Access::Geo => {
                if let Some((index, ranges)) = geo {
                    return Ok(ReadPath::Geo { index, ranges });
                }
            },
            Access::KeyRange { .. } => {
                return Ok(ReadPath::KeyRange);
            },
            Access::KeyOrder { lo, hi, descending } => {
                return Ok(
                    ReadPath::KeyOrder { lower: lo.is_some(), upper: hi.is_some(), descending },
                );
            },
            Access::Index(choice) => match choice {
                IndexChoice::Scan => {},
                other => {
                    return Ok(ReadPath::Index(other));
                },
            },
        }
        let probe = plan_global_probe(&self.catalog.indexes, sel.from.as_str(), &sel.filter);
        proof {
            if sel.filter is Some {
                lemma_routed(probe, self.catalog.indexes.entries@, sel.from@, sel.filter->0);
            }
        }
        if let Some((idx, _ts)) = probe {
            return Ok(ReadPath::Global(idx));
        }
        Ok(ReadPath::Table)
    }

    /// The way to the rows of a `SELECT`, as it would be executed.
    pub fn explain_path<
        'a,
        F: Fn(&Value) -> Vec<u8>,
        C: Fn(&SearchIndexDef, &String) -> bool,
    >(&self, sel: &'a Select, geo: Option<(String, usize)>, covers: &C, key: &F) -> (r: Result<
        ReadPath<'a>,
        EngineError,
    >)
        requires
            self.wf(),
            is_key_function(*key),
            is_cover_test(*covers),
        ensures
            match r {
                Ok(p) => explained_path(*self, *sel, geo_view(geo), *covers, *key) matches Ok(v)
                    && path_is(p, v),
                Err(e) => explained_path(*self, *sel, geo_view(geo), *covers, *key) == Err::<
                    PathView,
                    ErrorView,
                >(e@),
            },
    {
        if self.catalog.timeseries.contains(&sel.from) {
            return Ok(ReadPath::Series);
        }
        if let Some(near) = &sel.nearest {
            let index = self.vector_index_for(sel.from.as_str(), near.path.as_str());
            return Ok(ReadPath::Vector { index, filtered: sel.filter.is_some() });
        }
        let split = match split_search_filter(&sel.filter) {
            Err(e) => {
                return Err(e);
            },
            Ok(s) => s,
        };
        let ghost sv = split_view(split);
        let left: usize = split.residual.len();
        proof {
            assert(crate::constraints::pointees(split.residual@).len() == split.residual@.len());
        }
        if let Some(q) = combine_queries(split.queries) {
            return match self.search_index_for_query(sel.from.as_str(), &q, covers) {
                Err(e) => Err(e),
                Ok(idx) => Ok(choose_search_path(sel, left, idx, Ghost(sv))),
            };
        }
        self.choose_keyed_path(sel, geo, key)
    }
}

/// One row of an explanation: the aspect, and the decision with `.` in place
/// of every name separator.
pub open spec fn row(aspect: Seq<char>, decision: Seq<char>) -> (Seq<char>, Seq<char>) {
    (aspect, dotted(decision))
}

/// Rows by their characters.
pub open spec fn rows_view(rows: Seq<(String, String)>) -> Seq<(Seq<char>, Seq<char>)> {
    rows.map_values(|r: (String, String)| (r.0@, r.1@))
}

fn push_row(rows: &mut Vec<(String, String)>, aspect: &str, decision: &str)
    ensures
        rows_view(final(rows)@) == rows_view(old(rows)@).push(row(aspect@, decision@)),
{
    let ghost before = rows_view(rows@);
    rows.push((aspect.to_owned(), show_names(decision)));
    proof {
        assert(rows_view(rows@) =~= before.push(row(aspect@, decision@)));
    }
}

/// Which ends of an index range are bounded.
pub open spec fn bounds_text(s: ScanView) -> Seq<char> {
    if s.start is Some && s.end is Some {
        "bounded range"@
    } else if s.start is Some {
        "lower-bounded range"@
    } else if s.end is Some {
        "upper-bounded range"@
    } else {
        "full index"@
    }
}

/// The decision of an index scan.
pub open spec fn index_text(index: Seq<char>, s: ScanView) -> Seq<char> {
    if s.sorted {
        "index-ordered walk via '"@ + index + "' ("@ + bounds_text(s) + ", "@ + (if s.reverse {
            "DESC tail-walk"@
        } else {
            "ASC"@
        }) + ", early-stop at LIMIT)"@
    } else {
        "index scan via '"@ + index + "' ("@ + bounds_text(s) + ")"@
    }
}

fn describe_index(p: &IndexPlan<'_>) -> (r: String)
    ensures
        r@ == index_text(p.index@, p.scan@),
{
    let bounds = if p.scan.start.is_some() && p.scan.end.is_some() {
        "bounded range"
    } else if p.scan.start.is_some() {
        "lower-bounded range"
    } else if p.scan.end.is_some() {
        "upper-bounded range"
    } else {
        "full index"
    };
    if p.scan.sorted {
        let mut out = cat3("index-ordered walk via '", p.index.as_str(), "' (");
        out.append(bounds);
        out.append(", ");
        out.append(
            if p.scan.reverse {
                "DESC tail-walk"
            } else {
                "ASC"
            },
        );
        out.append(", early-stop at LIMIT)");
        out
    } else {
        let mut out = cat3("index scan via '", p.index.as_str(), "' (");
        out.append(bounds);
        out.append(")");
        out
    }
}

/// The decision of a walk in key order.
pub open spec fn key_order_text(lower: bool, upper: bool, descending: bool) -> Seq<char> {
    "primary-key-ordered walk ("@ + (if lower && upper {
        "bounded range"@
    } else if lower {
        "lower-bounded range"@
    } else if upper {
        "upper-bounded range"@
    } else {
        "full table"@
    }) + ", "@ + (if descending {
        "DESC tail-walk"@
    } else {
        "ASC"@
    }) + ", early-stop at LIMIT)"@
}

fn describe_key_order(lower: bool, upper: bool, descending: bool) -> (r: String)
    ensures
        r@ == key_order_text(lower, upper, descending),
{
    let mut out = cat(
        "primary-key-ordered walk (",
        if lower && upper {
            "bounded range"
        } else if lower {
            "lower-bounded range"
        } else if upper {
            "upper-bounded range"
        } else {
            "full table"
        },
    );
    out.append(", ");
    out.append(
        if descending {
            "DESC tail-walk"
        } else {
            "ASC"
        },
    );
    out.append(", early-stop at LIMIT)");
    out
}

/// A settled path: what a [`ReadPath`] reads once the distinct keys of its
/// tuples are counted and its index is chosen.
#[allow(inconsistent_fields)]
pub enum SettledPath<'a> {
    Series,
    Vector { index: Option<String>, filtered: bool },
    SearchGroups { index: String, pushdown: bool },
    SearchTop { index: String, k: u64, residual: bool },
    SearchSorted { index: String, residual: bool },
    SearchAll { index: String, residual: bool },
    Geo { index: String, ranges: usize },
    Point,
    /// This many rows by their keys.
    Points(usize),
    Index(IndexPlan<'a>),
    Global(String),
    KeyRange,
    KeyOrder { lower: bool, upper: bool, descending: bool },
    Table,
}

/// What a path settles to: `distinct` is the number of distinct keys among its
/// tuples, and `unsorted_rows` the size of the unsorted range that its index
/// choice asks to look up.
pub open spec fn settled<'a>(path: ReadPath<'a>, distinct: usize, unsorted_rows: usize) -> SettledPath<
    'a,
> {
    match path {
        ReadPath::Series => SettledPath::Series,
        ReadPath::Vector { index, filtered } => SettledPath::Vector { index, filtered },
        ReadPath::SearchGroups { index, pushdown } => SettledPath::SearchGroups { index, pushdown },
        ReadPath::SearchTop { index, k, residual } => SettledPath::SearchTop { index, k, residual },
        ReadPath::SearchSorted { index, residual } => SettledPath::SearchSorted { index, residual },
        ReadPath::SearchAll { index, residual } => SettledPath::SearchAll { index, residual },
        ReadPath::Geo { index, ranges } => SettledPath::Geo { index, ranges },
        ReadPath::Point => SettledPath::Point,
        ReadPath::Points(_) => SettledPath::Points(distinct),
        ReadPath::Index(ch) => match ch {
            IndexChoice::Scan => SettledPath::Table,
            IndexChoice::Use(p) => SettledPath::Index(p),
            IndexChoice::Probe { sorted, unsorted } => SettledPath::Index(
                if unsorted_rows <= crate::plan::PLANNER_PROBE_MAX {
                    unsorted
                } else {
                    sorted
                },
            ),
        },
        ReadPath::Global(i) => SettledPath::Global(i),
        ReadPath::KeyRange => SettledPath::KeyRange,
        ReadPath::KeyOrder { lower, upper, descending } => SettledPath::KeyOrder {
            lower,
            upper,
            descending,
        },
        ReadPath::Table => SettledPath::Table,
    }
}

/// Settles a path.
pub fn settle_path<'a>(path: ReadPath<'a>, distinct: usize, unsorted_rows: usize) -> (r: SettledPath<
    'a,
>)
    ensures
        r == settled(path, distinct, unsorted_rows),
{
    match path {
        ReadPath::Series => SettledPath::Series,
        ReadPath::Vector { index, filtered } => SettledPath::Vector { index, filtered },
        ReadPath::SearchGroups { index, pushdown } => SettledPath::SearchGroups { index, pushdown },
        ReadPath::SearchTop { index, k, residual } => SettledPath::SearchTop { index, k, residual },
        ReadPath::SearchSorted { index, residual } => SettledPath::SearchSorted { index, residual },
        ReadPath::SearchAll { index, residual } => SettledPath::SearchAll { index, residual },
        ReadPath::Geo { index, ranges } => SettledPath::Geo { index, ranges },
        ReadPath::Point => SettledPath::Point,
        ReadPath::Points(_ts) => SettledPath::Points(distinct),
        ReadPath::Index(ch) => match crate::plan::settle_choice(ch, unsorted_rows) {
            Some(p) => SettledPath::Index(p),
            None => SettledPath::Table,
        },
        ReadPath::Global(i) => SettledPath::Global(i),
        ReadPath::KeyRange => SettledPath::KeyRange,
        ReadPath::KeyOrder { lower, upper, descending } => SettledPath::KeyOrder {
            lower,
            upper,
            descending,
        },
        ReadPath::Table => SettledPath::Table,
    }
}

/// Rows with the residual note of a search behind them.
pub open spec fn with_residual(rows: Seq<(Seq<char>, Seq<char>)>, residual: bool) -> Seq<
    (Seq<char>, Seq<char>),
> {
    if residual {
        rows.push(
            row("residual_filter"@, "ordinary predicates filter the matches after the index"@),
        )
    } else {
        rows
    }
}

/// The rows that explain the way to the rows.
pub open spec fn access_rows(p: SettledPath<'_>) -> Seq<(Seq<char>, Seq<char>)> {
    let none = Seq::<(Seq<char>, Seq<char>)>::empty();
    let access = |d: Seq<char>| none.push(row("access"@, d));
    match p {
        SettledPath::Series => access(
            "time-series read: ts-range + label pushdown narrows the storage scan; grouped aggregates ship per-series per-bucket partials on clusters; aged buckets may serve from a rollup"@,
        ),
        SettledPath::Vector { index, filtered } => {
            let rows = access(
                "vector search (HNSW) via index '"@ + (match index {
                    Some(i) => i@,
                    None => "<missing vector index>"@,
                }) + "'"@,
            );
            if filtered {
                rows.push(row("residual_filter"@, "applied to candidates after the search"@))
            } else {
                rows
            }
        },
        SettledPath::SearchGroups { index, pushdown } => if pushdown {
            access(
                "search aggregation: exact fast-field facet pushdown via '"@ + index@
                    + "' (declines to the row gather on any inexactness)"@,
            )
        } else {
            access(
                "search aggregation: row-gather fallback via '"@ + index@
                    + "' (shape not servable by the fast-field pushdown)"@,
            )
        },
        SettledPath::SearchTop { index, k, residual } => with_residual(
            access("BM25 top-k pushdown via '"@ + index@ + "' (k = "@ + decimal(k as nat) + ")"@),
            residual,
        ),
        SettledPath::SearchSorted { index, residual } => with_residual(
            access(
                "search via '"@ + index@
                    + "', index-ordered top-k when the sort column is a declared fast field (else gather + sort)"@,
            ),
            residual,
        ),
        SettledPath::SearchAll { index, residual } => with_residual(
            access("unranked search via '"@ + index@ + "' (all matching keys)"@),
            residual,
        ),
        SettledPath::Geo { index, ranges } => access(
            "geo index scan via '"@ + index@ + "' ("@ + decimal(ranges as nat)
                + " Morton-code range(s))"@,
        ).push(
            row("residual_filter"@, "exact geo_distance/geo_bbox re-checked on candidates"@),
        ),
        SettledPath::Point => access("point read (primary-key equality)"@),
        SettledPath::Points(n) => access(
            "point-read set (primary-key =/IN, "@ + decimal(n as nat) + " keys)"@,
        ),
        SettledPath::Index(plan) => access(index_text(plan.index@, plan.scan@)),
        SettledPath::Global(i) => access(
            "global-index probe via '"@ + split_name(i@).1
                + "' (routed to the value's replica set)"@,
        ),
        SettledPath::KeyRange => access(
            "primary-key prefix range (leftmost PK column(s) equality-pinned; every shard scans only that key slice)"@,
        ),
        SettledPath::KeyOrder { lower, upper, descending } => access(
            key_order_text(lower, upper, descending),
        ),
        SettledPath::Table => access("full table scan (streaming k-way merge)"@),
    }
}

/// Whether a path goes by the table's key or its secondary indexes.
pub open spec fn is_keyed(p: SettledPath<'_>) -> bool {
    p is Point || p is Points || p is Index || p is Global || p is KeyRange || p is KeyOrder || p
        is Table
}

/// A list with one more row where `given` holds.
pub open spec fn with_row(
    rows: Seq<(Seq<char>, Seq<char>)>,
    given: bool,
    aspect: Seq<char>,
    decision: Seq<char>,
) -> Seq<(Seq<char>, Seq<char>)> {
    if given {
        rows.push(row(aspect, decision))
    } else {
        rows
    }
}

/// The decision of a `RERANK`.
pub open spec fn rerank_text(rr: crate::ast::Rerank) -> Seq<char> {
    "top "@ + decimal(rr.top as nat)
        + " candidates re-scored coordinator-side by the inference reranker"@ + (match rr.model {
        Some(m) => " (model '"@ + m@ + "')"@,
        None => Seq::empty(),
    })
}

/// The rows that explain a `SELECT` along a path.
pub open spec fn select_rows(sel: Select, p: SettledPath<'_>) -> Seq<(Seq<char>, Seq<char>)> {
    let head = seq![row("statement"@, "SELECT"@), row("table"@, sel.from@)] + access_rows(p);
    let ordered = with_row(
        head,
        is_keyed(p) && sel.limit is Some && sel.order_by@.len() > 0,
        "order"@,
        "ORDER BY + LIMIT uses top-k selection, not a full sort"@,
    );
    let paged = with_row(
        ordered,
        sel.after is Some,
        "page"@,
        "AFTER keyset cursor: ranked fetch (doubling depth) filtered strictly after the (sort value, primary key) cursor"@,
    );
    let reranked = match sel.rerank {
        Some(rr) => paged.push(row("rerank"@, rerank_text(rr))),
        None => paged,
    };
    let topped = match sel.group_top {
        Some(t) => reranked.push(
            row(
                "group_top"@,
                "per-group top-k rows: each group's "@ + decimal(t.k as nat)
                    + " best by the ranking expression (row gather, ranked at the coordinator)"@,
            ),
        ),
        None => reranked,
    };
    with_row(
        topped,
        sel.joins@.len() > 0,
        "join"@,
        "equi-joins hash-join, other predicates nested-loop; on a cluster both sides gather at the coordinator"@,
    )
}

/// A text with a number in the middle.
fn counted(before: &str, n: u64, after: &str) -> (r: String)
    ensures
        r@ == before@ + decimal(n as nat) + after@,
{
    cat3(before, decimal_of(n).as_str(), after)
}

fn push_residual(rows: &mut Vec<(String, String)>, residual: bool)
    ensures
        rows_view(final(rows)@) == with_residual(rows_view(old(rows)@), residual),
{
    if residual {
        push_row(rows, "residual_filter", "ordinary predicates filter the matches after the index");
    }
}

fn push_access(rows: &mut Vec<(String, String)>, p: &SettledPath<'_>)
    ensures
        rows_view(final(rows)@) == rows_view(old(rows)@) + access_rows(*p),
{
    let ghost before = rows_view(rows@);
    match p {
        SettledPath::Series => {
            push_row(
                rows,
                "access",
                "time-series read: ts-range + label pushdown narrows the storage scan; grouped aggregates ship per-series per-bucket partials on clusters; aged buckets may serve from a rollup",
            );
        },
        SettledPath::Vector { index, filtered } => {
            let name = match index {
                Some(i) => i.as_str(),
                None => "<missing vector index>",
            };
            push_row(
                rows,
                "access",
                cat3("vector search (HNSW) via index '", name, "'").as_str(),
            );
            if *filtered {
                push_row(rows, "residual_filter", "applied to candidates after the search");
            }
        },
        SettledPath::SearchGroups { index, pushdown } => {
            if *pushdown {
                push_row(
                    rows,
                    "access",
                    cat3(
                        "search aggregation: exact fast-field facet pushdown via '",
                        index.as_str(),
                        "' (declines to the row gather on any inexactness)",
                    ).as_str(),
                );
            } else {
                push_row(
                    rows,
                    "access",
                    cat3(
                        "search aggregation: row-gather fallback via '",
                        index.as_str(),
                        "' (shape not servable by the fast-field pushdown)",
                    ).as_str(),
                );
            }
        },
        SettledPath::SearchTop { index, k, residual } => {
            let head = cat3("BM25 top-k pushdown via '", index.as_str(), "' (k = ");
            push_row(rows, "access", counted(head.as_str(), *k, ")").as_str());
            push_residual(rows, *residual);
        },
        SettledPath::SearchSorted { index, residual } => {
            push_row(
                rows,
                "access",
                cat3(
                    "search via '",
                    index.as_str(),
                    "', index-ordered top-k when the sort column is a declared fast field (else gather + sort)",
                ).as_str(),
            );
            push_residual(rows, *residual);
        },
        SettledPath::SearchAll { index, residual } => {
            push_row(
                rows,
                "access",
                cat3("unranked search via '", index.as_str(), "' (all matching keys)").as_str(),
            );
            push_residual(rows, *residual);
        },
        SettledPath::Geo { index, ranges } => {
            let head = cat3("geo index scan via '", index.as_str(), "' (");
            push_row(
                rows,
                "access",
                counted(head.as_str(), *ranges as u64, " Morton-code range(s))").as_str(),
            );
            push_row(
                rows,
                "residual_filter",
                "exact geo_distance/geo_bbox re-checked on candidates",
            );
        },
        SettledPath::Point => {
            push_row(rows, "access", "point read (primary-key equality)");
        },
        SettledPath::Points(n) => {
            push_row(
                rows,
                "access",
                counted("point-read set (primary-key =/IN, ", *n as u64, " keys)").as_str(),
            );
        },
        SettledPath::Index(plan) => {
            push_row(rows, "access", describe_index(plan).as_str());
        },
        SettledPath::Global(i) => {
            let (_db, bare) = crate::namespace::split(i.as_str());
            push_row(
                rows,
                "access",
                cat3(
                    "global-index probe via '",
                    bare.as_str(),
                    "' (routed to the value's replica set)",
                ).as_str(),
            );
        },
        SettledPath::KeyRange => {
            push_row(
                rows,
                "access",
                "primary-key prefix range (leftmost PK column(s) equality-pinned; every shard scans only that key slice)",
            );
        },
        SettledPath::KeyOrder { lower, upper, descending } => {
            push_row(rows, "access", describe_key_order(*lower, *upper, *descending).as_str());
        },
        SettledPath::Table => {
            push_row(rows, "access", "full table scan (streaming k-way merge)");
        },
    }
    proof {
        assert(rows_view(rows@) =~= before + access_rows(*p));
    }
}

/// Explains a `SELECT` along a path.
pub fn explain_select(sel: &Select, path: &SettledPath<'_>) -> (r: Vec<(String, String)>)
    ensures
        rows_view(r@) == select_rows(*sel, *path),
{
    let mut rows: Vec<(String, String)> = Vec::new();
    proof {
        assert(rows_view(rows@) =~= Seq::<(Seq<char>, Seq<char>)>::empty());
    }
    push_row(&mut rows, "statement", "SELECT");
    push_row(&mut rows, "table", sel.from.as_str());
    proof {
        assert(rows_view(rows@) =~= seq![row("statement"@, "SELECT"@), row("table"@, sel.from@)]);
    }
    push_access(&mut rows, path);
    let keyed = match path {
        SettledPath::Point => true,
        SettledPath::Points(_) => true,
        SettledPath::Index(_) => true,
        SettledPath::Global(_) => true,
        SettledPath::KeyRange => true,
        SettledPath::KeyOrder { .. } => true,
        SettledPath::Table => true,
        _ => false,
    };
    if keyed && sel.limit.is_some() && sel.order_by.len() > 0 {
        push_row(&mut rows, "order", "ORDER BY + LIMIT uses top-k selection, not a full sort");
    }
    if sel.after.is_some() {
        push_row(
            &mut rows,
            "page",
            "AFTER keyset cursor: ranked fetch (doubling depth) filtered strictly after the (sort value, primary key) cursor",
        );
    }
    if let Some(rr) = &sel.rerank {
        let mut text = counted(
            "top ",
            rr.top,
            " candidates re-scored coordinator-side by the inference reranker",
        );
        if let Some(m) = &rr.model {
            text.append(cat3(" (model '", m.as_str(), "')").as_str());
        }
        proof {
            assert(text@ =~= rerank_text(*rr));
        }
        push_row(&mut rows, "rerank", text.as_str());
    }
    if let Some(t) = &sel.group_top {
        push_row(
            &mut rows,
            "group_top",
            counted(
                "per-group top-k rows: each group's ",
                t.k,
                " best by the ranking expression (row gather, ranked at the coordinator)",
            ).as_str(),
        );
    }
    if sel.joins.len() > 0 {
        push_row(
            &mut rows,
            "join",
            "equi-joins hash-join, other predicates nested-loop; on a cluster both sides gather at the coordinator",
        );
    }
    rows
}

/// The rows that explain a statement other than a `SELECT`: a write, or one
/// without a data-access plan, whose debug text is `label`.
pub open spec fn other_rows<F: Fn(&Value) -> Vec<u8>>(
    db: Database,
    stmt: Statement,
    label: Seq<char>,
    key: F,
) -> Result<Seq<(Seq<char>, Seq<char>)>, ErrorView> {
    match stmt {
        Statement::Insert(ins) => Ok(
            seq![
                row("statement"@, "INSERT"@),
                row("table"@, ins.table@),
                row(
                    "write"@,
                    "keys route to their replica sets; acked at the write consistency; secondary/search/vector indexes maintained per replica"@,
                ),
            ],
        ),
        Statement::Update(u) => if !db@.cat.tables.dom().contains(u.table@) {
            Err(ErrorView::TableNotFound(u.table@))
        } else {
            Ok(
                seq![
                    row("statement"@, "UPDATE"@),
                    row("table"@, u.table@),
                    row(
                        "access"@,
                        if pins_key(db, u.table@, u.filter, key) {
                            "point read (primary-key equality), then write"@
                        } else {
                            "scan matching rows, then write each"@
                        },
                    ),
                ],
            )
        },
        Statement::Delete(d) => if !db@.cat.tables.dom().contains(d.table@) {
            Err(ErrorView::TableNotFound(d.table@))
        } else {
            Ok(
                seq![
                    row("statement"@, "DELETE"@),
                    row("table"@, d.table@),
                    row(
                        "access"@,
                        if pins_key(db, d.table@, d.filter, key) {
                            "point read (primary-key equality), then tombstone"@
                        } else {
                            "scan matching rows, then tombstone each"@
                        },
                    ),
                ],
            )
        },
        _ => Ok(
            seq![
                row("statement"@, pieces(label, ' ')[0]),
                row("plan"@, "executes directly (no data-access plan)"@),
            ],
        ),
    }
}

/// Whether a filter pins every key column of a table to a literal.
pub open spec fn pins_key<F: Fn(&Value) -> Vec<u8>>(
    db: Database,
    table: Seq<char>,
    filter: Option<Expr>,
    key: F,
) -> bool {
    point_values(
        db@.cat.tables[table].primary_key,
        constraints(key, filter_comparisons(filter)),
    ) is Some
}

impl Database {
    fn finds_key<F: Fn(&Value) -> Vec<u8>>(
        &self,
        table: &String,
        filter: &Option<Expr>,
        key: &F,
    ) -> (r: Result<bool, EngineError>)
        requires
            self.wf(),
            is_key_function(*key),
        ensures
            !self@.cat.tables.dom().contains(table@) ==> (r matches Err(e) && e@
                == ErrorView::TableNotFound(table@)),
            self@.cat.tables.dom().contains(table@) ==> (r matches Ok(b) && b == pins_key(
                *self,
                table@,
                *filter,
                *key,
            )),
    {
        match def_of(&self.catalog.tables, table) {
            None => Err(EngineError::TableNotFound(table.clone())),
            Some(d) => {
                let cs = filter_constraints(filter, key);
                Ok(pk_point_key(&d.primary_key, &cs).is_some())
            },
        }
    }

    /// Explains a statement other than a `SELECT`; `label` is its debug text.
    pub fn explain_other<F: Fn(&Value) -> Vec<u8>>(&self, stmt: &Statement, label: &str, key: &F) -> (r:
        Result<Vec<(String, String)>, EngineError>)
        requires
            self.wf(),
            is_key_function(*key),
        ensures
            match r {
                Ok(rows) => other_rows(*self, *stmt, label@, *key) == Ok::<
                    Seq<(Seq<char>, Seq<char>)>,
                    ErrorView,
                >(rows_view(rows@)),
                Err(e) => other_rows(*self, *stmt, label@, *key) == Err::<
                    Seq<(Seq<char>, Seq<char>)>,
                    ErrorView,
                >(e@),
            },
    {
        let mut rows: Vec<(String, String)> = Vec::new();
        proof {
            assert(rows_view(rows@) =~= Seq::<(Seq<char>, Seq<char>)>::empty());
        }
        match stmt {
            Statement::Insert(ins) => {
                push_row(&mut rows, "statement", "INSERT");
                push_row(&mut rows, "table", ins.table.as_str());
                push_row(
                    &mut rows,
                    "write",
                    "keys route to their replica sets; acked at the write consistency; secondary/search/vector indexes maintained per replica",
                );
            },
            Statement::Update(u) => {
                push_row(&mut rows, "statement", "UPDATE");
                push_row(&mut rows, "table", u.table.as_str());
                let point = match self.finds_key(&u.table, &u.filter, key) {
                    Err(e) => {
                        return Err(e);
                    },
                    Ok(b) => b,
                };
                push_row(
                    &mut rows,
                    "access",
                    if point {
                        "point read (primary-key equality), then write"
                    } else {
                        "scan matching rows, then write each"
                    },
                );
            },
            Statement::Delete(d) => {
                push_row(&mut rows, "statement", "DELETE");
                push_row(&mut rows, "table", d.table.as_str());
                let point = match self.finds_key(&d.table, &d.filter, key) {
                    Err(e) => {
                        return Err(e);
                    },
                    Ok(b) => b,
                };
                push_row(
                    &mut rows,
                    "access",
                    if point {
                        "point read (primary-key equality), then tombstone"
                    } else {
                        "scan matching rows, then tombstone each"
                    },
                );
            },
            _ => {
                let words = split(label, ' ');
                proof {
                    assert(pieces(label@, ' ').len() > 0);
                    assert(crate::text::views(words@).len() == words@.len());
                    assert(crate::text::views(words@)[0] == words@[0]@);
                }
                push_row(&mut rows, "statement", words[0].as_str());
                push_row(&mut rows, "plan", "executes directly (no data-access plan)");
            },
        }
        proof {
            if let Ok(want) = other_rows(*self, *stmt, label@, *key) {
                assert(rows_view(rows@) =~= want);
            }
        }
        Ok(rows)
    }
}

/// The keys of value tuples.
pub open spec fn tuple_keys<K: Fn(&Vec<&Value>) -> Vec<u8>>(k: K, ts: Seq<Vec<&Value>>) -> Seq<
    Seq<u8>,
> {
    ts.map_values(|t: Vec<&Value>| encoding(k, tuple_view(t@)))
}

/// The number of distinct keys among those of value tuples.
fn count_keys<K: Fn(&Vec<&Value>) -> Vec<u8>>(k: &K, ts: &Vec<Vec<&Value>>) -> (r: usize)
    requires
        is_encoder(*k),
    ensures
        r == tuple_keys(*k, ts@).to_set().len(),
{
    let mut keys: Vec<Vec<u8>> = Vec::new();
    let mut i: usize = 0;
    while i < ts.len()
        invariant
            is_encoder(*k),
            i <= ts@.len(),
            keys@.len() == i,
            forall|j: int|
                0 <= j < i ==> (#[trigger] keys@[j])@ == encoding(*k, tuple_view(ts@[j]@)),
        decreases ts@.len() - i,
    {
        keys.push(encode_tuple(k, &ts[i]));
        i = i + 1;
    }
    let distinct = unique_sorted(&keys);
    proof {
        let all = tuple_keys(*k, ts@);
        let ks = key_views(distinct@);
        assert(key_views(keys@) =~= all);
        assert(ks.no_duplicates()) by {
            assert forall|a: int, b: int| 0 <= a < ks.len() && 0 <= b < ks.len() && a != b
                implies ks[a] != ks[b] by {
                lemma_bytes_lt_irrefl(ks[a]);
                if a < b {
                    assert(bytes_lt(ks[a], ks[b]));
                } else {
                    assert(bytes_lt(ks[b], ks[a]));
                }
            }
        }
        ks.unique_seq_to_set();
        assert(ks.to_set() =~= all.to_set());
    }
    distinct.len()
}

/// The cells of an explanation's rows.
pub open spec fn explained_cells(rows: Seq<(Seq<char>, Seq<char>)>) -> Seq<Seq<ValueView>> {
    rows.map_values(
        |r: (Seq<char>, Seq<char>)| seq![ValueView::String(r.0), ValueView::String(r.1)],
    )
}

/// An explanation as a result.
pub open spec fn explanation(rows: Seq<(Seq<char>, Seq<char>)>) -> ResultView {
    ResultView { columns: seq!["aspect"@, "decision"@], rows: explained_cells(rows) }
}

fn show_explanation(rows: Vec<(String, String)>) -> (r: ResultSet)
    ensures
        r@ == explanation(rows_view(rows@)),
{
    let ghost all = rows@;
    let mut cells: Vec<Vec<Value>> = Vec::new();
    for row in it: rows
        invariant
            it.seq() == all,
            cells@.len() == it.index(),
            forall|i: int|
                0 <= i < cells@.len() ==> row_view((#[trigger] cells@[i])@)
                    == explained_cells(rows_view(all))[i],
    {
        let ghost n = it.index() as int;
        let (aspect, decision) = row;
        proof {
            assert(all[n] == (aspect, decision));
            assert(rows_view(all)[n] == (aspect@, decision@));
        }
        let mut pair: Vec<Value> = Vec::new();
        pair.push(Value::String(aspect));
        pair.push(Value::String(decision));
        proof {
            assert(row_view(pair@) =~= explained_cells(rows_view(all))[n]);
        }
        cells.push(pair);
    }
    let mut columns: Vec<String> = Vec::new();
    columns.push("aspect".to_owned());
    columns.push("decision".to_owned());
    proof {
        assert(crate::text::views(columns@) =~= seq!["aspect"@, "decision"@]);
        assert(crate::results::rows_view(cells@) =~= explained_cells(rows_view(all)));
    }
    ResultSet { columns, rows: cells }
}

/// Whether a path reads this many distinct keys and, where its index choice
/// asks for the size of a range, that size was given.
pub open spec fn measured<
    K: Fn(&Vec<&Value>) -> Vec<u8>,
    S: for<'b> Fn(&IndexPlan<'b>) -> usize,
>(k: K, size: S, path: ReadPath<'_>, distinct: usize, unsorted_rows: usize) -> bool {
    match path {
        ReadPath::Points(ts) => distinct == tuple_keys(k, ts@).to_set().len(),
        ReadPath::Index(ch) => match ch {
            IndexChoice::Probe { sorted: _, unsorted } => call_ensures(
                size,
                (&unsorted,),
                unsorted_rows,
            ),
            _ => true,
        },
        _ => true,
    }
}

impl Database {
    /// Explains a statement: what the executor would choose for it. `geo` is
    /// the geo index that serves the filter and the number of its ranges,
    /// `label` the debug text of the statement, and `size` looks up how many
    /// entries of an index a plan reads.
    pub fn explain_statement<
        F: Fn(&Value) -> Vec<u8>,
        C: Fn(&SearchIndexDef, &String) -> bool,
        K: Fn(&Vec<&Value>) -> Vec<u8>,
        S: for<'b> Fn(&IndexPlan<'b>) -> usize,
    >(
        &self,
        stmt: &Statement,
        geo: Option<(String, usize)>,
        label: &str,
        covers: &C,
        key: &F,
        encode: &K,
        size: &S,
    ) -> (r: Result<ResultSet, EngineError>)
        requires
            self.wf(),
            is_key_function(*key),
            is_cover_test(*covers),
            is_encoder(*encode),
            forall|p: &IndexPlan<'_>| call_requires(*size, (p,)),
        ensures
            match stmt {
                Statement::Select(sel) => match explained_path(
                    *self,
                    *sel,
                    geo_view(geo),
                    *covers,
                    *key,
                ) {
                    Ok(v) => r matches Ok(rs) && exists|p: ReadPath<'_>, n: usize, m: usize|
                        #![trigger settled(p, n, m)]
                        path_is(p, v) && measured(*encode, *size, p, n, m) && rs@ == explanation(
                            select_rows(*sel, settled(p, n, m)),
                        ),
                    Err(e) => r matches Err(x) && x@ == e,
                },
                _ => match other_rows(*self, *stmt, label@, *key) {
                    Ok(rows) => r matches Ok(rs) && rs@ == explanation(rows),
                    Err(e) => r matches Err(x) && x@ == e,
                },
            },
    {
        if let Statement::Select(sel) = stmt {
            let path = match self.explain_path(sel, geo, covers, key) {
                Err(e) => {
                    return Err(e);
                },
                Ok(path) => path,
            };
            let mut distinct: usize = 0;
            let mut unsorted_rows: usize = 0;
            match &path {
                ReadPath::Points(ts) => {
                    distinct = count_keys(encode, ts);
                },
                ReadPath::Index(ch) => {
                    if let IndexChoice::Probe { sorted: _, unsorted } = ch {
                        unsorted_rows = size(unsorted);
                    }
                },
                _ => {},
            }
            let ghost p = path;
            let way = settle_path(path, distinct, unsorted_rows);
            proof {
                assert(measured(*encode, *size, p, distinct, unsorted_rows));
                assert(way == settled(p, distinct, unsorted_rows));
            }
            return Ok(show_explanation(explain_select(sel, &way)));
        }
        match self.explain_other(stmt, label, key) {
            Err(e) => Err(e),
            Ok(rows) => Ok(show_explanation(rows)),
        }
    }
}

} // verus!
