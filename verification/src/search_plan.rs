//! Running a full-text `SELECT`: the strategy it calls for, keyset pages,
//! reranking, and aggregation inside the index.

use vstd::prelude::*;
use vstd::string::StringExecFns;

use crate::ast::AggArg;
use crate::ast::AggFunc;
use crate::ast::Expr;
use crate::ast::OrderKey;
use crate::ast::Rerank;
use crate::ast::Select;
use crate::ast::SelectItem;
use crate::bytes::bytes_below;
use crate::bytes::bytes_lt;
use crate::catalog::OnTable;
use crate::catalog::SearchIndexDef;
use crate::database::verdict;
use crate::database::Database;
use crate::error::type_error;
use crate::error::unsupported;
use crate::error::unsupported_about;
use crate::error::EngineError;
use crate::error::ErrorView;
use crate::highlight::collect_highlights;
use crate::highlight::highlights_of;
use crate::highlight::req_views;
use crate::highlight::HighlightOpts;
use crate::highlight::HighlightReq;
use crate::highlight::OptsView;
use crate::highlight::ReqView;
use crate::order::fetch_depth;
use crate::order::page_depth;
use crate::order::Rank;
use crate::projection::grouped;
use crate::projection::is_grouped;
use crate::search::collect_search_fields;
use crate::search::collect_search_texts;
use crate::search::combine_queries;
use crate::search::combined;
use crate::search::fields_into;
use crate::search::has_func;
use crate::search::is_score_call;
use crate::search::order_has_score;
use crate::search::query_view;
use crate::search::score_call;
use crate::search::split_filter;
use crate::search::split_search_filter;
use crate::search::texts_into;
use crate::search::FuncSort;
use crate::search::QueryView;
use crate::search::SearchQuery;
use crate::search::SplitView;
use crate::select_plan::bound_counts;
use crate::select_plan::check_bound_counts;
use crate::sorted_map::SortedMap;
use crate::text::cat;
use crate::text::cat3;
use crate::text::chars_of;
use crate::text::join;
use crate::text::joined;
use crate::text::str_eq;
use crate::text::views;
use crate::value::Document;
use crate::value::Value;

verus! {

/// The deepest fetch of a keyset cursor.
pub const AFTER_FETCH_MAX: u64 = 65_536;

/// The largest candidate window of a `RERANK`.
pub const RERANK_MAX_TOP: u64 = 1000;

/// The most text, in bytes, that is sent to the reranker for one document.
pub const RERANK_DOC_MAX_CHARS: u64 = 4000;

/// How a search query is run.
#[derive(Clone, Copy, Debug, PartialEq, Eq, Structural)]
pub enum SearchStrategy {
    /// A keyset page behind a cursor.
    After,
    /// The best candidates, scored anew.
    Rerank { top: u64 },
    /// Grouped, inside the index where it can be served exactly.
    GroupedInIndex,
    /// The best rows of each group.
    GroupTop,
    /// Grouped over the matching rows.
    GroupedRows,
    /// Every match, in no order.
    Unordered,
    /// The best matches by score.
    Ranked { k: u64 },
    /// The first matches by one column, in index order where it can be had.
    Sorted { want: u64, descending: bool },
    /// Every match, sorted afterwards.
    Gather,
}

/// The error of a `RERANK` that a query cannot have.
pub open spec fn rerank_refusal(sel: Select) -> Result<(), ErrorView> {
    match sel.rerank {
        None => Ok(()),
        Some(rr) => if grouped(sel) || sel.group_top is Some {
            Err(ErrorView::Unsupported("RERANK cannot be combined with GROUP BY or aggregates"@))
        } else if sel.order_by@.len() > 0 {
            Err(
                ErrorView::Unsupported(
                    "RERANK results are ordered by the reranker; ORDER BY is not supported"@,
                ),
            )
        } else if rr.top > RERANK_MAX_TOP {
            Err(ErrorView::ResourceLimit("RERANK TOP is capped at 1000 candidates"@))
        } else {
            Ok(())
        },
    }
}

/// Refuses a `RERANK` that a query cannot have.
pub fn check_rerank(sel: &Select) -> (r: Result<(), EngineError>)
    ensures
        verdict(r) == rerank_refusal(*sel),
{
    match &sel.rerank {
        None => Ok(()),
        Some(rr) => {
            if is_grouped(sel) || sel.group_top.is_some() {
                return Err(unsupported("RERANK cannot be combined with GROUP BY or aggregates"));
            }
            if sel.order_by.len() > 0 {
                return Err(
                    unsupported(
                        "RERANK results are ordered by the reranker; ORDER BY is not supported",
                    ),
                );
            }
            if rr.top > RERANK_MAX_TOP {
                return Err(
                    EngineError::ResourceLimit(
                        "RERANK TOP is capped at 1000 candidates".to_owned(),
                    ),
                );
            }
            Ok(())
        },
    }
}

/// Whether `score()` occurs in some order key.
pub open spec fn scored_order(sel: Select) -> bool {
    exists|i: int|
        0 <= i < sel.order_by@.len() && has_func(
            (#[trigger] sel.order_by@[i]).expr,
            FuncSort::Score,
        )
}

/// Whether the order is exactly `score() DESC`.
pub open spec fn by_score(order_by: Seq<OrderKey>) -> bool {
    order_by.len() == 1 && order_by[0].descending && score_call(order_by[0].expr)
}

/// The strategy of a search query over the split filter `s`, or why it is
/// refused.
pub open spec fn strategy(sel: Select, s: SplitView) -> Result<SearchStrategy, ErrorView> {
    if sel.after is Some {
        Ok(SearchStrategy::After)
    } else if sel.rerank is Some {
        match rerank_refusal(sel) {
            Err(e) => Err(e),
            Ok(_) => Ok(SearchStrategy::Rerank { top: sel.rerank->0.top }),
        }
    } else if grouped(sel) {
        if s.residual.len() == 0 && index_aggregate(sel) is Some {
            Ok(SearchStrategy::GroupedInIndex)
        } else if sel.group_top is Some {
            Ok(SearchStrategy::GroupTop)
        } else {
            Ok(SearchStrategy::GroupedRows)
        }
    } else if sel.order_by@.len() == 0 {
        Ok(SearchStrategy::Unordered)
    } else if by_score(sel.order_by@) {
        match sel.limit {
            None => Err(ErrorView::Unsupported("ORDER BY score() requires LIMIT"@)),
            Some(l) => Ok(SearchStrategy::Ranked { k: fetch_depth(sel.offset, l) as u64 }),
        }
    } else if scored_order(sel) {
        Err(
            ErrorView::Unsupported("score() ordering must be exactly ORDER BY score() DESC"@),
        )
    } else if sel.order_by@.len() == 1 && sel.limit is Some && sel.order_by@[0].expr is Column {
        Ok(
            SearchStrategy::Sorted {
                want: fetch_depth(sel.offset, sel.limit->0) as u64,
                descending: sel.order_by@[0].descending,
            },
        )
    } else {
        Ok(SearchStrategy::Gather)
    }
}

/// Whether a strategy answers the query's highlight requests.
pub open spec fn highlights_rows(st: SearchStrategy) -> bool {
    st != SearchStrategy::After && st != SearchStrategy::GroupedInIndex && st
        != SearchStrategy::GroupedRows
}

/// A planned search: the query, the strategy, and the highlights to make.
pub struct SearchPlanView {
    pub query: QueryView,
    pub residual: Seq<Expr>,
    pub strategy: SearchStrategy,
    pub highlights: Seq<ReqView>,
}

/// The plan of a search query, or why it is refused: the clauses that cannot
/// be combined with a search first, then its filter, then its strategy.
pub open spec fn search_plan(sel: Select, d: OptsView) -> Result<SearchPlanView, ErrorView> {
    if bound_counts(sel) is Err {
        Err(bound_counts(sel)->Err_0)
    } else if sel.joins@.len() > 0 || sel.set_ops@.len() > 0 {
        Err(ErrorView::Unsupported("MATCH()/SEARCH() cannot be combined with JOIN or UNION"@))
    } else if sel.distinct {
        Err(ErrorView::Unsupported("MATCH()/SEARCH() cannot be combined with DISTINCT"@))
    } else if sel.nearest is Some {
        Err(ErrorView::Unsupported("MATCH()/SEARCH() cannot be combined with NEAREST"@))
    } else {
        match split_filter(sel.filter) {
            Err(e) => Err(e),
            Ok(s) => match combined(s.queries) {
                None => Err(
                    ErrorView::Type(
                        "score() is only valid in a query with a MATCH()/SEARCH() predicate"@,
                    ),
                ),
                Some(query) => match strategy(sel, s) {
                    Err(e) => Err(e),
                    Ok(st) => if highlights_rows(st) {
                        match highlights_of(sel, d) {
                            Err(e) => Err(e),
                            Ok(hs) => Ok(
                                SearchPlanView {
                                    query,
                                    residual: s.residual,
                                    strategy: st,
                                    highlights: hs,
                                },
                            ),
                        }
                    } else {
                        Ok(
                            SearchPlanView {
                                query,
                                residual: s.residual,
                                strategy: st,
                                highlights: Seq::empty(),
                            },
                        )
                    },
                },
            },
        }
    }
}

/// A planned search.
pub struct SearchPlan<'a> {
    pub query: SearchQuery,
    /// The conjuncts that filter the matches afterwards.
    pub residual: Vec<&'a Expr>,
    pub strategy: SearchStrategy,
    pub highlights: Vec<HighlightReq>,
}

/// What a planned search holds.
pub open spec fn plan_view(p: SearchPlan<'_>) -> SearchPlanView {
    SearchPlanView {
        query: query_view(p.query),
        residual: crate::constraints::pointees(p.residual@),
        strategy: p.strategy,
        highlights: req_views(p.highlights@),
    }
}

/// The strategy of a search query whose filter leaves `residual` conjuncts.
pub(crate) fn choose_strategy(sel: &Select, residual: usize, Ghost(s): Ghost<SplitView>) -> (r: Result<
    SearchStrategy,
    EngineError,
>)
    requires
        s.residual.len() == residual,
    ensures
        verdict(r) == strategy(*sel, s),
{
    if sel.after.is_some() {
        return Ok(SearchStrategy::After);
    }
    if let Some(rr) = &sel.rerank {
        if let Err(e) = check_rerank(sel) {
            return Err(e);
        }
        return Ok(SearchStrategy::Rerank { top: rr.top });
    }
    if is_grouped(sel) {
        if residual == 0 && map_search_aggregate(sel).is_some() {
            return Ok(SearchStrategy::GroupedInIndex);
        }
        return if sel.group_top.is_some() {
            Ok(SearchStrategy::GroupTop)
        } else {
            Ok(SearchStrategy::GroupedRows)
        };
    }
    if sel.order_by.len() == 0 {
        return Ok(SearchStrategy::Unordered);
    }
    if sel.order_by.len() == 1 && sel.order_by[0].descending && is_score_call(
        &sel.order_by[0].expr,
    ) {
        return match sel.limit {
            None => Err(unsupported("ORDER BY score() requires LIMIT")),
            Some(l) => Ok(SearchStrategy::Ranked { k: page_depth(sel.offset, l) }),
        };
    }
    if order_has_score(sel) {
        return Err(unsupported("score() ordering must be exactly ORDER BY score() DESC"));
    }
    if sel.order_by.len() == 1 {
        if let Some(l) = sel.limit {
            if let Expr::Column(_) = &sel.order_by[0].expr {
                return Ok(
                    SearchStrategy::Sorted {
                        want: page_depth(sel.offset, l),
                        descending: sel.order_by[0].descending,
                    },
                );
            }
        }
    }
    Ok(SearchStrategy::Gather)
}

/// Plans a full-text `SELECT`. `defaults` are the highlight options that a
/// request does not name.
pub fn plan_search_select<'a>(sel: &'a Select, defaults: &HighlightOpts) -> (r: Result<
    SearchPlan<'a>,
    EngineError,
>)
    ensures
        match r {
            Ok(p) => search_plan(*sel, defaults@) == Ok::<SearchPlanView, ErrorView>(plan_view(p)),
            Err(e) => search_plan(*sel, defaults@) == Err::<SearchPlanView, ErrorView>(e@),
        },
{
    if let Err(e) = check_bound_counts(sel) {
        return Err(e);
    }
    if sel.joins.len() > 0 || sel.set_ops.len() > 0 {
        return Err(unsupported("MATCH()/SEARCH() cannot be combined with JOIN or UNION"));
    }
    if sel.distinct {
        return Err(unsupported("MATCH()/SEARCH() cannot be combined with DISTINCT"));
    }
    if sel.nearest.is_some() {
        return Err(unsupported("MATCH()/SEARCH() cannot be combined with NEAREST"));
    }
    let split = match split_search_filter(&sel.filter) {
        Err(e) => {
            return Err(e);
        },
        Ok(s) => s,
    };
    let ghost sv = crate::search::split_view(split);
    let residual = split.residual;
    let query = match combine_queries(split.queries) {
        None => {
            return Err(
                type_error("score() is only valid in a query with a MATCH()/SEARCH() predicate"),
            );
        },
        Some(q) => q,
    };
    let strategy = match choose_strategy(sel, residual.len(), Ghost(sv)) {
        Err(e) => {
            return Err(e);
        },
        Ok(st) => st,
    };
    let mut highlights: Vec<HighlightReq> = Vec::new();
    proof {
        assert(req_views(highlights@) =~= Seq::<ReqView>::empty());
    }
    if strategy != SearchStrategy::After && strategy != SearchStrategy::GroupedInIndex && strategy
        != SearchStrategy::GroupedRows {
        match collect_highlights(sel, defaults) {
            Err(e) => {
                return Err(e);
            },
            Ok(hs) => {
                highlights = hs;
            },
        }
    }
    Ok(SearchPlan { query, residual, strategy, highlights })
}

/// What a rank-fused query may not be combined with.
pub open spec fn hybrid_refusal(sel: Select) -> Result<(), ErrorView> {
    if sel.nearest is None {
        Err(ErrorView::Unsupported("RANK BY RRF requires a NEAREST (vector) clause"@))
    } else if sel.joins@.len() > 0 || sel.set_ops@.len() > 0 || sel.distinct || grouped(sel)
        || sel.having is Some {
        Err(
            ErrorView::Unsupported(
                "RANK BY RRF cannot be combined with JOIN, UNION, DISTINCT, or GROUP BY"@,
            ),
        )
    } else if sel.order_by@.len() > 0 {
        Err(
            ErrorView::Unsupported(
                "RANK BY RRF results are ordered by rrf_score(); ORDER BY is not supported"@,
            ),
        )
    } else if sel.after is Some {
        Err(
            ErrorView::Unsupported(
                "AFTER is not supported with RANK BY RRF (fused ranks are not a stable cursor)"@,
            ),
        )
    } else {
        match bound_counts(sel) {
            Err(e) => Err(e),
            Ok(()) => rerank_refusal(sel),
        }
    }
}

/// The text leg of a rank-fused query: the search query and the conjuncts that
/// filter both legs.
pub open spec fn hybrid_plan(sel: Select) -> Result<(QueryView, Seq<Expr>), ErrorView> {
    match hybrid_refusal(sel) {
        Err(e) => Err(e),
        Ok(_) => match split_filter(sel.filter) {
            Err(e) => Err(e),
            Ok(s) => match combined(s.queries) {
                None => Err(
                    ErrorView::Type(
                        "RANK BY RRF requires a MATCH()/SEARCH() predicate in WHERE (the text leg)"@,
                    ),
                ),
                Some(q) => Ok((q, s.residual)),
            },
        },
    }
}

/// Plans a rank-fused query.
pub fn plan_hybrid_select<'a>(sel: &'a Select) -> (r: Result<
    (SearchQuery, Vec<&'a Expr>),
    EngineError,
>)
    ensures
        match r {
            Ok((q, res)) => hybrid_plan(*sel) == Ok::<(QueryView, Seq<Expr>), ErrorView>(
                (query_view(q), crate::constraints::pointees(res@)),
            ),
            Err(e) => hybrid_plan(*sel) == Err::<(QueryView, Seq<Expr>), ErrorView>(e@),
        },
{
    if sel.nearest.is_none() {
        return Err(unsupported("RANK BY RRF requires a NEAREST (vector) clause"));
    }
    if sel.joins.len() > 0 || sel.set_ops.len() > 0 || sel.distinct || is_grouped(sel)
        || sel.having.is_some() {
        return Err(
            unsupported("RANK BY RRF cannot be combined with JOIN, UNION, DISTINCT, or GROUP BY"),
        );
    }
    if sel.order_by.len() > 0 {
        return Err(
            unsupported("RANK BY RRF results are ordered by rrf_score(); ORDER BY is not supported"),
        );
    }
    if sel.after.is_some() {
        return Err(
            unsupported(
                "AFTER is not supported with RANK BY RRF (fused ranks are not a stable cursor)",
            ),
        );
    }
    if let Err(e) = check_bound_counts(sel) {
        return Err(e);
    }
    if let Err(e) = check_rerank(sel) {
        return Err(e);
    }
    let split = match split_search_filter(&sel.filter) {
        Err(e) => {
            return Err(e);
        },
        Ok(s) => s,
    };
    let residual = split.residual;
    match combine_queries(split.queries) {
        None => Err(
            type_error(
                "RANK BY RRF requires a MATCH()/SEARCH() predicate in WHERE (the text leg)",
            ),
        ),
        Some(q) => Ok((q, residual)),
    }
}

/// The number of neighbours that an evaluated `NEAREST k` asks for.
pub fn nearest_k(k: &Value) -> (r: Result<u64, EngineError>)
    ensures
        match *k {
            Value::Int(n) => if n > 0 {
                r matches Ok(m) && m == n
            } else {
                verdict(r) == Err::<u64, ErrorView>(
                    ErrorView::Type("NEAREST k must be a positive integer"@),
                )
            },
            _ => verdict(r) == Err::<u64, ErrorView>(
                ErrorView::Type("NEAREST k must be a positive integer"@),
            ),
        },
{
    if let Value::Int(n) = k {
        if *n > 0 {
            return Ok(*n as u64);
        }
    }
    Err(type_error("NEAREST k must be a positive integer"))
}

/// What a keyset cursor pages over.
pub enum AfterOrder<'a> {
    /// `ORDER BY score() DESC`.
    Score,
    /// `ORDER BY <column>`.
    Column { col: &'a String, descending: bool },
}

/// The page size of a keyset page, or what the cursor cannot be combined with.
pub open spec fn after_limit(sel: Select) -> Result<u64, ErrorView> {
    if sel.offset is Some {
        Err(
            ErrorView::Unsupported(
                "AFTER is a keyset cursor; OFFSET is not supported — page with AFTER alone"@,
            ),
        )
    } else if sel.rerank is Some {
        Err(
            ErrorView::Unsupported(
                "AFTER cannot be combined with RERANK (rerank scores are not a stable cursor)"@,
            ),
        )
    } else if grouped(sel) || sel.group_top is Some || sel.distinct {
        Err(
            ErrorView::Unsupported(
                "AFTER cannot be combined with GROUP BY, aggregates, or DISTINCT"@,
            ),
        )
    } else {
        match sel.limit {
            None => Err(ErrorView::Unsupported("AFTER requires LIMIT (the page size)"@)),
            Some(l) => Ok(l),
        }
    }
}

/// The page size of a keyset page.
pub fn check_after(sel: &Select) -> (r: Result<u64, EngineError>)
    ensures
        verdict(r) == after_limit(*sel),
{
    if sel.offset.is_some() {
        return Err(
            unsupported("AFTER is a keyset cursor; OFFSET is not supported — page with AFTER alone"),
        );
    }
    if sel.rerank.is_some() {
        return Err(
            unsupported(
                "AFTER cannot be combined with RERANK (rerank scores are not a stable cursor)",
            ),
        );
    }
    if is_grouped(sel) || sel.group_top.is_some() || sel.distinct {
        return Err(
            unsupported("AFTER cannot be combined with GROUP BY, aggregates, or DISTINCT"),
        );
    }
    match sel.limit {
        None => Err(unsupported("AFTER requires LIMIT (the page size)")),
        Some(l) => Ok(l),
    }
}

/// The page size of a keyset page and the two expressions of its cursor, or
/// why the cursor is refused.
pub open spec fn after_cursor(sel: Select, values: Seq<Expr>) -> Result<(u64, Expr, Expr), ErrorView> {
    match after_limit(sel) {
        Err(e) => Err(e),
        Ok(l) => if values.len() != 2 {
            Err(ErrorView::Type("AFTER takes exactly (last sort value, last primary-key value)"@))
        } else {
            Ok((l, values[0], values[1]))
        },
    }
}

/// The page size of a keyset page and the two expressions of its cursor
/// `values`: the last sort value and the last key.
pub fn parse_after_cursor<'a>(sel: &Select, values: &'a Vec<Expr>) -> (r: Result<
    (u64, &'a Expr, &'a Expr),
    EngineError,
>)
    ensures
        match r {
            Ok((l, s, k)) => after_cursor(*sel, values@) == Ok::<(u64, Expr, Expr), ErrorView>(
                (l, *s, *k),
            ),
            Err(e) => after_cursor(*sel, values@) == Err::<(u64, Expr, Expr), ErrorView>(e@),
        },
{
    let limit: u64 = match check_after(sel) {
        Err(e) => {
            return Err(e);
        },
        Ok(l) => l,
    };
    if values.len() != 2 {
        return Err(type_error("AFTER takes exactly (last sort value, last primary-key value)"));
    }
    Ok((limit, &values[0], &values[1]))
}

/// What a keyset cursor pages over.
pub enum AfterOrderView {
    /// `ORDER BY score() DESC`.
    Score,
    /// `ORDER BY <column>`, descending or not.
    Column(Seq<char>, bool),
}

impl<'a> View for AfterOrder<'a> {
    type V = AfterOrderView;

    open spec fn view(&self) -> AfterOrderView {
        match *self {
            AfterOrder::Score => AfterOrderView::Score,
            AfterOrder::Column { col, descending } => AfterOrderView::Column(col@, descending),
        }
    }
}

/// The order that a keyset cursor pages over, or why there is none.
pub open spec fn paged_order(order_by: Seq<OrderKey>) -> Result<AfterOrderView, ErrorView> {
    if order_by.len() == 0 {
        Err(
            ErrorView::Unsupported(
                "AFTER requires ORDER BY score() DESC or ORDER BY <column> (plus LIMIT)"@,
            ),
        )
    } else if order_by.len() > 1 {
        Err(
            ErrorView::Unsupported(
                "AFTER supports exactly one ORDER BY key — the primary key is the implicit ascending tie-break"@,
            ),
        )
    } else if by_score(order_by) {
        Ok(AfterOrderView::Score)
    } else {
        match order_by[0].expr {
            Expr::Column(c) => Ok(AfterOrderView::Column(c@, order_by[0].descending)),
            _ => Err(
                ErrorView::Unsupported("AFTER requires ORDER BY score() DESC or ORDER BY <column>"@),
            ),
        }
    }
}

/// The order that a keyset cursor pages over.
fn after_order<'a>(order_by: &'a Vec<OrderKey>) -> (r: Result<AfterOrder<'a>, EngineError>)
    ensures
        match r {
            Ok(o) => paged_order(order_by@) == Ok::<AfterOrderView, ErrorView>(o@),
            Err(e) => paged_order(order_by@) == Err::<AfterOrderView, ErrorView>(e@),
        },
{
    if order_by.len() == 0 {
        return Err(
            unsupported("AFTER requires ORDER BY score() DESC or ORDER BY <column> (plus LIMIT)"),
        );
    }
    if order_by.len() > 1 {
        return Err(
            unsupported(
                "AFTER supports exactly one ORDER BY key — the primary key is the implicit ascending tie-break",
            ),
        );
    }
    if order_by[0].descending && is_score_call(&order_by[0].expr) {
        return Ok(AfterOrder::Score);
    }
    match &order_by[0].expr {
        Expr::Column(col) => Ok(
            AfterOrder::Column { col, descending: order_by[0].descending },
        ),
        _ => Err(unsupported("AFTER requires ORDER BY score() DESC or ORDER BY <column>")),
    }
}

/// A planned keyset page.
pub struct AfterPlan<'a> {
    pub order: AfterOrder<'a>,
    pub highlights: Vec<HighlightReq>,
}

/// The plan of a keyset page behind an evaluated cursor, or why it is refused.
pub open spec fn after_plan(
    sel: Select,
    sort_value: Value,
    pk_value: Value,
    pk_columns: nat,
    d: OptsView,
) -> Result<(AfterOrderView, Seq<ReqView>), ErrorView> {
    if pk_value is Null {
        Err(ErrorView::Type("AFTER primary-key value must not be NULL"@))
    } else if pk_columns != 1 {
        Err(
            ErrorView::Unsupported(
                "AFTER requires a single-column primary key (the cursor tie-break)"@,
            ),
        )
    } else {
        match highlights_of(sel, d) {
            Err(e) => Err(e),
            Ok(hs) => match paged_order(sel.order_by@) {
                Err(e) => Err(e),
                Ok(AfterOrderView::Score) => if sort_value is Int || sort_value is Float {
                    Ok((AfterOrderView::Score, hs))
                } else {
                    Err(
                        ErrorView::Type(
                            "AFTER with ORDER BY score() takes a numeric score cursor"@,
                        ),
                    )
                },
                Ok(o) => Ok((o, hs)),
            },
        }
    }
}

/// Plans a keyset page behind the cursor (`sort_value`, `pk_value`) of a table
/// whose key has `pk_columns` columns.
pub fn plan_search_after<'a>(
    sel: &'a Select,
    sort_value: &Value,
    pk_value: &Value,
    pk_columns: usize,
    defaults: &HighlightOpts,
) -> (r: Result<AfterPlan<'a>, EngineError>)
    ensures
        match r {
            Ok(p) => after_plan(*sel, *sort_value, *pk_value, pk_columns as nat, defaults@) == Ok::<
                (AfterOrderView, Seq<ReqView>),
                ErrorView,
            >((p.order@, req_views(p.highlights@))),
            Err(e) => after_plan(*sel, *sort_value, *pk_value, pk_columns as nat, defaults@) == Err::<
                (AfterOrderView, Seq<ReqView>),
                ErrorView,
            >(e@),
        },
{
    if pk_value.is_null() {
        return Err(type_error("AFTER primary-key value must not be NULL"));
    }
    if pk_columns != 1 {
        return Err(
            unsupported("AFTER requires a single-column primary key (the cursor tie-break)"),
        );
    }
    let highlights = match collect_highlights(sel, defaults) {
        Err(e) => {
            return Err(e);
        },
        Ok(hs) => hs,
    };
    let order = match after_order(&sel.order_by) {
        Err(e) => {
            return Err(e);
        },
        Ok(o) => o,
    };
    if let AfterOrder::Score = &order {
        match sort_value {
            Value::Int(_) => {},
            Value::Float(_) => {},
            _ => {
                return Err(
                    type_error("AFTER with ORDER BY score() takes a numeric score cursor"),
                );
            },
        }
    }
    Ok(AfterPlan { order, highlights })
}

/// Whether a row lies behind a cursor: its sort value ranks behind the
/// cursor's, or they tie and its key is larger.
pub open spec fn is_behind(rank: Rank, key: Seq<u8>, cursor_key: Seq<u8>) -> bool {
    rank == Rank::Greater || rank == Rank::Equal && bytes_lt(cursor_key, key)
}

/// Whether a row lies behind a cursor, given how its sort value ranks against
/// the cursor's.
pub fn strictly_after(rank: Rank, key: &[u8], cursor_key: &[u8]) -> (r: bool)
    ensures
        r == is_behind(rank, key@, cursor_key@),
{
    match rank {
        Rank::Greater => true,
        Rank::Equal => bytes_below(cursor_key, key),
        Rank::Less => false,
    }
}

/// The depth of the first fetch of a keyset page: twice the page, at least 64
/// and at most the ceiling.
pub open spec fn first_depth(limit: u64) -> u64 {
    if limit * 2 > AFTER_FETCH_MAX {
        AFTER_FETCH_MAX
    } else if limit * 2 < 64 {
        64
    } else {
        (limit * 2) as u64
    }
}

/// The depth of the first fetch of a keyset page.
pub fn first_after_fetch(limit: u64) -> (k: u64)
    ensures
        k == first_depth(limit),
        64 <= k <= AFTER_FETCH_MAX,
{
    if limit > AFTER_FETCH_MAX / 2 {
        AFTER_FETCH_MAX
    } else if limit * 2 < 64 {
        64
    } else {
        limit * 2
    }
}

/// What follows a fetch of a keyset page.
#[derive(Clone, Copy, Debug, PartialEq, Eq, Structural)]
pub enum AfterStep {
    /// The page is full, or there are no more matches.
    Done,
    /// Fetch again, this deep.
    Deeper(u64),
    /// The cursor is deeper than the ceiling.
    TooDeep,
}

/// The depth of the fetch after one `k` deep: twice as deep, and at most the
/// ceiling.
pub open spec fn next_depth(k: u64) -> u64 {
    if k * 2 > AFTER_FETCH_MAX {
        AFTER_FETCH_MAX
    } else {
        (k * 2) as u64
    }
}

/// The depth of a page's fetch after `n` that did not settle it.
pub open spec fn depth_after(limit: u64, n: nat) -> u64
    decreases n,
{
    if n == 0 {
        first_depth(limit)
    } else {
        next_depth(depth_after(limit, (n - 1) as nat))
    }
}

/// What follows a fetch `k` deep that returned `fetched` rows, `found` of them
/// behind the cursor.
pub fn after_step(k: u64, fetched: u64, found: u64, limit: u64) -> (r: AfterStep)
    ensures
        r == (if found >= limit || fetched < k {
            AfterStep::Done
        } else if k >= AFTER_FETCH_MAX {
            AfterStep::TooDeep
        } else {
            AfterStep::Deeper(next_depth(k))
        }),
        r matches AfterStep::Deeper(d) ==> d <= AFTER_FETCH_MAX && (k > 0 ==> d > k),
{
    if found >= limit || fetched < k {
        AfterStep::Done
    } else if k >= AFTER_FETCH_MAX {
        AfterStep::TooDeep
    } else if k > AFTER_FETCH_MAX / 2 {
        AfterStep::Deeper(AFTER_FETCH_MAX)
    } else {
        AfterStep::Deeper(k * 2)
    }
}

/// The message for a cursor deeper than the ceiling.
pub fn too_deep_error(sorted: bool) -> (r: EngineError)
    ensures
        r@ == ErrorView::ResourceLimit(
            if sorted {
                "AFTER cursor is deeper than 65536 sorted hits — narrow the query"@
            } else {
                "AFTER cursor is deeper than 65536 ranked hits — narrow the query"@
            },
        ),
{
    EngineError::ResourceLimit(
        if sorted {
            "AFTER cursor is deeper than 65536 sorted hits — narrow the query".to_owned()
        } else {
            "AFTER cursor is deeper than 65536 ranked hits — narrow the query".to_owned()
        },
    )
}

/// The fetches of a keyset page never get shallower and are at the ceiling
/// after ten: a page is settled within eleven fetches, whatever its limit.
pub proof fn keyset_pages_settle(limit: u64, n: nat)
    ensures
        depth_after(limit, n) <= depth_after(limit, n + 1) <= AFTER_FETCH_MAX,
        depth_after(limit, 10) == AFTER_FETCH_MAX,
    decreases n,
{
    if n > 0 {
        keyset_pages_settle(limit, (n - 1) as nat);
    }
    let d = |k: nat| depth_after(limit, k);
    assert(d(0) >= 64);
    assert(d(1) >= 128);
    assert(d(2) >= 256);
    assert(d(3) >= 512);
    assert(d(4) >= 1024);
    assert(d(5) >= 2048);
    assert(d(6) >= 4096);
    assert(d(7) >= 8192);
    assert(d(8) >= 16384);
    assert(d(9) >= 32768);
    assert(d(10) == AFTER_FETCH_MAX);
}

/// Whether a character has the Unicode property White_Space.
pub open spec fn is_white_space(c: char) -> bool {
    let n = c as u32;
    9 <= n <= 13 || n == 0x20 || n == 0x85 || n == 0xa0 || n == 0x1680 || 0x2000 <= n <= 0x200a || n
        == 0x2028 || n == 0x2029 || n == 0x202f || n == 0x205f || n == 0x3000
}

/// Whether a string is all white space, so that trimming leaves nothing of it.
pub open spec fn blank(s: Seq<char>) -> bool {
    forall|i: int| 0 <= i < s.len() ==> is_white_space(#[trigger] s[i])
}

fn white_space(c: char) -> (r: bool)
    ensures
        r == is_white_space(c),
{
    let n: u32 = c as u32;
    (9 <= n && n <= 13) || n == 0x20 || n == 0x85 || n == 0xa0 || n == 0x1680 || (0x2000 <= n && n
        <= 0x200a) || n == 0x2028 || n == 0x2029 || n == 0x202f || n == 0x205f || n == 0x3000
}

/// Whether a string is all white space.
pub fn is_blank(s: &str) -> (r: bool)
    ensures
        r == blank(s@),
{
    let n: usize = s.unicode_len();
    let mut i: usize = 0;
    while i < n
        invariant
            n == s@.len(),
            i <= n,
            forall|k: int| 0 <= k < i ==> is_white_space(#[trigger] s@[k]),
        decreases n - i,
    {
        if !white_space(s.get_char(i)) {
            return false;
        }
        i = i + 1;
    }
    true
}

/// The text that candidates are scored against: the clause's own, or the texts
/// of the search predicate.
pub open spec fn rerank_query(rr: Rerank, q: QueryView) -> Seq<char> {
    match rr.query {
        Some(text) => text@,
        None => joined(texts_into(q, Seq::empty()), " "@),
    }
}

/// The text that a `RERANK` scores candidates against; an error where the
/// predicate carries none and the clause names none.
pub fn rerank_query_text(rr: &Rerank, query: &SearchQuery) -> (r: Result<String, EngineError>)
    ensures
        match r {
            Ok(t) => t@ == rerank_query(*rr, query_view(*query)) && (rr.query is Some || !blank(t@)),
            Err(e) => rr.query is None && blank(rerank_query(*rr, query_view(*query))) && e@ == ErrorView::Type(
                "RERANK could not derive a query text from the search predicate; add QUERY '<text>'"@,
            ),
        },
{
    if let Some(q) = &rr.query {
        return Ok(q.clone());
    }
    let mut texts: Vec<String> = Vec::new();
    proof {
        assert(views(texts@) =~= Seq::<Seq<char>>::empty());
    }
    collect_search_texts(query, &mut texts);
    let t = join(&texts, " ");
    if is_blank(t.as_str()) {
        return Err(
            type_error(
                "RERANK could not derive a query text from the search predicate; add QUERY '<text>'",
            ),
        );
    }
    Ok(t)
}

/// The number of bytes that a character takes in UTF-8.
pub open spec fn char_width(c: char) -> nat {
    if (c as u32) < 0x80 {
        1
    } else if (c as u32) < 0x800 {
        2
    } else if (c as u32) < 0x1_0000 {
        3
    } else {
        4
    }
}

/// The number of bytes that characters take in UTF-8.
pub open spec fn byte_width(s: Seq<char>) -> nat
    decreases s.len(),
{
    if s.len() == 0 {
        0
    } else {
        byte_width(s.drop_last()) + char_width(s.last())
    }
}

/// The longest prefix that takes at most `max` bytes.
pub open spec fn capped(s: Seq<char>, max: nat) -> Seq<char>
    decreases s.len(),
{
    if byte_width(s) <= max {
        s
    } else {
        capped(s.drop_last(), max)
    }
}

/// The text of a candidate with one more part, on a line of its own, cut to
/// the cap. A full text and an empty part change nothing.
pub open spec fn with_part(text: Seq<char>, part: Seq<char>) -> Seq<char> {
    if byte_width(text) >= RERANK_DOC_MAX_CHARS || part.len() == 0 {
        text
    } else if text.len() == 0 {
        capped(part, RERANK_DOC_MAX_CHARS as nat)
    } else {
        capped(text.push('\n') + part, RERANK_DOC_MAX_CHARS as nat)
    }
}

/// The text of a candidate made of parts; a blank for one with no text at all,
/// so that it stays scoreable.
pub open spec fn candidate_text(parts: Seq<Seq<char>>) -> Seq<char> {
    let t = parts_text(parts);
    if t.len() == 0 {
        " "@
    } else {
        t
    }
}

/// The text that parts add up to.
pub open spec fn parts_text(parts: Seq<Seq<char>>) -> Seq<char>
    decreases parts.len(),
{
    if parts.len() == 0 {
        Seq::empty()
    } else {
        with_part(parts_text(parts.drop_last()), parts.last())
    }
}

fn width_of(c: char) -> (w: u64)
    ensures
        w == char_width(c),
        1 <= w <= 4,
{
    let n: u32 = c as u32;
    if n < 0x80 {
        1
    } else if n < 0x800 {
        2
    } else if n < 0x1_0000 {
        3
    } else {
        4
    }
}

proof fn lemma_width_prefix(s: Seq<char>, k: int)
    requires
        0 <= k <= s.len(),
    ensures
        byte_width(s.take(k)) + (s.len() - k) <= byte_width(s),
    decreases s.len() - k,
{
    if k == s.len() {
        assert(s.take(k) =~= s);
    } else {
        lemma_width_prefix(s, k + 1);
        assert(s.take(k + 1).drop_last() =~= s.take(k));
    }
}

proof fn lemma_capped(s: Seq<char>, max: nat, k: int)
    requires
        0 <= k <= s.len(),
        byte_width(s.take(k)) <= max,
        k < s.len() ==> byte_width(s.take(k + 1)) > max,
    ensures
        capped(s, max) == s.take(k),
    decreases s.len(),
{
    if k == s.len() {
        assert(s.take(k) =~= s);
    } else {
        lemma_width_prefix(s, k + 1);
        let t = s.drop_last();
        assert(t.take(k) =~= s.take(k));
        if k < t.len() {
            assert(t.take(k + 1) =~= s.take(k + 1));
        }
        lemma_capped(t, max, k);
    }
}

/// The text cut to the cap, and how many bytes it then takes.
fn cap_text(text: &str, max: u64) -> (r: (String, u64))
    ensures
        r.0@ == capped(text@, max as nat),
        r.1 == byte_width(r.0@),
        r.1 <= max,
{
    let cs = chars_of(text);
    let mut out = String::new();
    let mut used: u64 = 0;
    let mut i: usize = 0;
    proof {
        assert(cs@.take(0) =~= Seq::<char>::empty());
        assert(out@ =~= cs@.take(0));
    }
    let n: usize = cs.len();
    let mut full: bool = false;
    while i < n && !full
        invariant
            n == cs@.len(),
            cs@ == text@,
            i <= n,
            used <= max,
            out@ == cs@.take(i as int),
            used == byte_width(cs@.take(i as int)),
            full ==> i < n && byte_width(cs@.take(i + 1)) > max,
        decreases n - i, (if full { 0int } else { 1int }),
    {
        let w: u64 = width_of(cs[i]);
        proof {
            assert(cs@.take(i + 1).drop_last() =~= cs@.take(i as int));
            assert(cs@.take(i + 1).last() == cs@[i as int]);
        }
        if w > max - used {
            full = true;
        } else {
            out.push(cs[i]);
            used = used + w;
            proof {
                assert(out@ =~= cs@.take(i + 1));
            }
            i = i + 1;
        }
    }
    proof {
        lemma_capped(cs@, max as nat, i as int);
    }
    (out, used)
}

/// The text sent to the reranker for one candidate, from the strings that
/// stand for it.
pub fn rerank_doc_text(parts: &Vec<&String>) -> (r: String)
    ensures
        r@ == candidate_text(parts@.map_values(|p: &String| p@)),
{
    let ghost ps = parts@.map_values(|p: &String| p@);
    let mut text = String::new();
    let mut used: u64 = 0;
    let mut i: usize = 0;
    proof {
        assert(ps.take(0) =~= Seq::<Seq<char>>::empty());
    }
    while i < parts.len()
        invariant
            i <= parts@.len(),
            ps == parts@.map_values(|p: &String| p@),
            text@ == parts_text(ps.take(i as int)),
            used == byte_width(text@),
            used <= RERANK_DOC_MAX_CHARS,
        decreases parts@.len() - i,
    {
        proof {
            assert(ps.take(i + 1).drop_last() =~= ps.take(i as int));
            assert(ps.take(i + 1).last() == ps[i as int]);
            assert(ps[i as int] == parts@[i as int]@);
        }
        if used < RERANK_DOC_MAX_CHARS && !parts[i].as_str().is_empty() {
            if !text.as_str().is_empty() {
                text.push('\n');
            } else {
                proof {
                    assert(text@ + ps[i as int] =~= ps[i as int]);
                }
            }
            text.append(parts[i].as_str());
            let (cut, width) = cap_text(text.as_str(), RERANK_DOC_MAX_CHARS);
            text = cut;
            used = width;
        }
        i = i + 1;
    }
    proof {
        assert(ps.take(ps.len() as int) =~= ps);
    }
    if text.as_str().is_empty() {
        return " ".to_owned();
    }
    text
}

/// The string fields of a document that speak for it: those whose name does
/// not begin with `_`, in name order.
pub open spec fn own_strings(es: Seq<(String, Value)>) -> Seq<Seq<char>>
    decreases es.len(),
{
    if es.len() == 0 {
        Seq::empty()
    } else {
        let before = own_strings(es.drop_last());
        match es.last().1 {
            Value::String(s) => if crate::text::has_prefix(es.last().0@, "_"@) {
                before
            } else {
                before.push(s@)
            },
            _ => before,
        }
    }
}

/// The string fields of a document that speak for it.
pub fn rerank_own_fields<'a>(doc: &'a Document) -> (r: Vec<&'a String>)
    requires
        doc.fields.wf(),
    ensures
        r@.map_values(|p: &String| p@) == own_strings(doc.fields.entries@),
{
    let ghost es = doc.fields.entries@;
    let mut out: Vec<&'a String> = Vec::new();
    let mut i: usize = 0;
    proof {
        assert(es.take(0) =~= Seq::<(String, Value)>::empty());
        assert(out@.map_values(|p: &String| p@) =~= Seq::<Seq<char>>::empty());
    }
    while i < doc.fields.len()
        invariant
            doc.fields.wf(),
            es == doc.fields.entries@,
            i <= es.len(),
            out@.map_values(|p: &String| p@) == own_strings(es.take(i as int)),
        decreases es.len() - i,
    {
        proof {
            assert(es.take(i + 1).drop_last() =~= es.take(i as int));
            assert(es.take(i + 1).last() == es[i as int]);
        }
        if let Value::String(s) = doc.fields.value_at(i) {
            if !crate::text::starts_with(doc.fields.key_at(i).as_str(), "_") {
                let ghost before = out@.map_values(|p: &String| p@);
                out.push(s);
                proof {
                    assert(out@.map_values(|p: &String| p@) =~= before.push(s@));
                }
            }
        }
        i = i + 1;
    }
    proof {
        assert(es.take(es.len() as int) =~= es);
    }
    out
}

/// Whether the candidate at `a` scored strictly better than the one at `b`.
pub open spec fn scored_better(scores: Seq<i64>, a: int, b: int) -> bool {
    scores[a] > scores[b]
}

/// The order of reranked candidates by their scores' ranks, best first; ties
/// keep the retrieval order.
pub fn rerank_order(scores: &Vec<i64>) -> (r: Vec<usize>)
    ensures
        crate::order::as_places(r@) == crate::order::stable_sorted(
            crate::order::places(scores@.len()),
            |a: int, b: int| scored_better(scores@, a, b),
        ),
{
    let ghost lt = |a: int, b: int| scored_better(scores@, a, b);
    let n: usize = scores.len();
    let mut out: Vec<usize> = Vec::new();
    let mut x: usize = 0;
    proof {
        assert(crate::order::as_places(out@) =~= crate::order::stable_sorted(
            crate::order::places(0),
            lt,
        ));
    }
    while x < n
        invariant
            n == scores@.len(),
            x <= n,
            lt == (|a: int, b: int| scored_better(scores@, a, b)),
            crate::order::as_places(out@) == crate::order::stable_sorted(
                crate::order::places(x as nat),
                lt,
            ),
            forall|i: int| 0 <= i < out@.len() ==> (#[trigger] out@[i]) < x,
        decreases n - x,
    {
        let ghost s = crate::order::as_places(out@);
        let m: usize = out.len();
        let mut i: usize = 0;
        while i < m && scores[x] <= scores[out[i]]
            invariant
                n == scores@.len(),
                x < n,
                m == out@.len(),
                s == crate::order::as_places(out@),
                i <= m,
                lt == (|a: int, b: int| scored_better(scores@, a, b)),
                forall|i: int| 0 <= i < out@.len() ==> (#[trigger] out@[i]) < x,
                forall|j: int| 0 <= j < i ==> !lt(x as int, #[trigger] s[j]),
            decreases m - i,
        {
            proof {
                assert(s[i as int] == out@[i as int] as int);
            }
            i = i + 1;
        }
        proof {
            if i < m {
                assert(s[i as int] == out@[i as int] as int);
            }
            crate::order::lemma_slot_for_is(s, x as int, lt, i as int);
        }
        out.insert(i, x);
        proof {
            assert(crate::order::as_places(out@) =~= crate::order::put_in(s, x as int, lt));
            let all = crate::order::places((x + 1) as nat);
            assert(all.drop_last() =~= crate::order::places(x as nat));
            assert(all.last() == x);
        }
        x = x + 1;
    }
    out
}

/// What an in-index aggregation groups by.
pub enum AggGroupBy {
    Keyword(String),
    DateHistogram { column: String, interval_ms: i64 },
}

pub enum AggGroupView {
    Keyword(Seq<char>),
    DateHistogram(Seq<char>, i64),
}

#[derive(Clone, Copy, Debug, PartialEq, Eq, Structural)]
pub enum AggMetricFunc {
    Count,
    ApproxCountDistinct,
    CountDistinct,
    ValueCount,
    Sum,
    Avg,
    Min,
    Max,
}

/// One metric of an in-index aggregation.
pub struct AggMetric {
    pub func: AggMetricFunc,
    pub column: Option<String>,
}

pub struct MetricView {
    pub func: AggMetricFunc,
    pub column: Option<Seq<char>>,
}

impl View for AggMetric {
    type V = MetricView;

    open spec fn view(&self) -> MetricView {
        MetricView {
            func: self.func,
            column: match self.column {
                Some(c) => Some(c@),
                None => None,
            },
        }
    }
}

/// What a projected item reads from an aggregated row.
#[derive(Clone, Copy, Debug, PartialEq, Eq, Structural)]
pub enum AggOut {
    /// The bucket's key.
    GroupKey,
    /// The metric at this place.
    Metric(usize),
}

/// What a query groups by inside the index: nothing where it groups by
/// something the index cannot.
pub open spec fn group_of(group_by: Seq<Expr>) -> Option<Option<AggGroupView>> {
    if group_by.len() == 0 {
        Some(None)
    } else if group_by.len() > 1 {
        None
    } else {
        match group_by[0] {
            Expr::Column(c) => Some(Some(AggGroupView::Keyword(c@))),
            Expr::Func { name, args } => if name@ == "time_bucket"@ && args@.len() == 2 {
                match (args@[0], args@[1]) {
                    (Expr::Literal(Value::Int(ms)), Expr::Column(c)) => if ms > 0 {
                        Some(Some(AggGroupView::DateHistogram(c@, ms)))
                    } else {
                        None
                    },
                    _ => None,
                }
            } else {
                None
            },
            _ => None,
        }
    }
}

/// Whether a projected expression is the one grouped by.
pub open spec fn is_group(e: Expr, g: Option<AggGroupView>) -> bool {
    match g {
        None => false,
        Some(AggGroupView::Keyword(c)) => e matches Expr::Column(d) && d@ == c,
        Some(AggGroupView::DateHistogram(c, ms)) => e matches Expr::Func { name, args } && name@
            == "time_bucket"@ && args@.len() == 2 && (args@[0] matches Expr::Literal(Value::Int(n))
            && n == ms) && (args@[1] matches Expr::Column(d) && d@ == c),
    }
}

/// The column of a plain column expression.
pub open spec fn column_of(e: Expr) -> Option<Seq<char>> {
    match e {
        Expr::Column(c) => Some(c@),
        _ => None,
    }
}

/// A metric over a column.
pub open spec fn column_metric(func: AggMetricFunc, e: Expr) -> Option<MetricView> {
    match column_of(e) {
        Some(c) => Some(MetricView { func, column: Some(c) }),
        None => None,
    }
}

/// The metric that an aggregate maps to; nothing where the index has none.
pub open spec fn metric_of(func: AggFunc, arg: AggArg) -> Option<MetricView> {
    match arg {
        AggArg::Star => if func == AggFunc::Count {
            Some(MetricView { func: AggMetricFunc::Count, column: None })
        } else {
            None
        },
        AggArg::ApproxDistinct(e) => if func == AggFunc::Count {
            column_metric(AggMetricFunc::ApproxCountDistinct, *e)
        } else {
            None
        },
        AggArg::Distinct(e) => if func == AggFunc::Count {
            column_metric(AggMetricFunc::CountDistinct, *e)
        } else {
            None
        },
        AggArg::Expr(e) => match func {
            AggFunc::Count => column_metric(AggMetricFunc::ValueCount, *e),
            AggFunc::Sum => column_metric(AggMetricFunc::Sum, *e),
            AggFunc::Avg => column_metric(AggMetricFunc::Avg, *e),
            AggFunc::Min => column_metric(AggMetricFunc::Min, *e),
            AggFunc::Max => column_metric(AggMetricFunc::Max, *e),
            _ => None,
        },
    }
}

/// The metrics that a projection asks for, and what each item reads.
pub struct AggItems {
    pub metrics: Seq<MetricView>,
    pub outs: Seq<AggOut>,
}

/// The metrics and outputs of a run of projected items; nothing where one is
/// neither the grouped expression nor a simple aggregate.
pub open spec fn agg_items(items: Seq<SelectItem>, g: Option<AggGroupView>) -> Option<AggItems>
    decreases items.len(),
{
    if items.len() == 0 {
        Some(AggItems { metrics: Seq::empty(), outs: Seq::empty() })
    } else {
        match (agg_items(items.drop_last(), g), items.last()) {
            (Some(a), SelectItem::Expr { expr, .. }) => if is_group(expr, g) {
                Some(AggItems { outs: a.outs.push(AggOut::GroupKey), ..a })
            } else {
                match expr {
                    Expr::Aggregate { func, arg } => match metric_of(func, arg) {
                        Some(m) => Some(
                            AggItems {
                                metrics: a.metrics.push(m),
                                outs: a.outs.push(AggOut::Metric(a.metrics.len() as usize)),
                            },
                        ),
                        None => None,
                    },
                    _ => None,
                }
            },
            _ => None,
        }
    }
}

/// The in-index aggregation of a grouped search query: its grouping, its
/// metrics and what each projected item reads. Nothing where the shape needs
/// the rows.
pub open spec fn index_aggregate(sel: Select) -> Option<(Option<AggGroupView>, AggItems)> {
    if sel.having is Some || sel.order_by@.len() > 0 || sel.offset is Some || sel.group_top
        is Some {
        None
    } else {
        match group_of(sel.group_by@) {
            None => None,
            Some(g) => match agg_items(sel.items@, g) {
                None => None,
                Some(a) => Some((g, a)),
            },
        }
    }
}

/// An in-index aggregation.
pub struct AggRequest {
    pub group_by: Option<AggGroupBy>,
    pub metrics: Vec<AggMetric>,
}

/// A grouping by its characters.
pub open spec fn group_view(g: Option<AggGroupBy>) -> Option<AggGroupView> {
    match g {
        None => None,
        Some(AggGroupBy::Keyword(c)) => Some(AggGroupView::Keyword(c@)),
        Some(AggGroupBy::DateHistogram { column, interval_ms }) => Some(
            AggGroupView::DateHistogram(column@, interval_ms),
        ),
    }
}

/// A list of metrics by what each is.
pub open spec fn metric_views(ms: Seq<AggMetric>) -> Seq<MetricView> {
    ms.map_values(|m: AggMetric| m@)
}

fn find_group(group_by: &Vec<Expr>) -> (r: Option<Option<AggGroupBy>>)
    ensures
        match r {
            None => group_of(group_by@) is None,
            Some(g) => group_of(group_by@) == Some(group_view(g)),
        },
{
    if group_by.len() == 0 {
        return Some(None);
    }
    if group_by.len() > 1 {
        return None;
    }
    match &group_by[0] {
        Expr::Column(c) => Some(Some(AggGroupBy::Keyword(c.clone()))),
        Expr::Func { name, args } => {
            if str_eq(name.as_str(), "time_bucket") && args.len() == 2 {
                if let (Expr::Literal(Value::Int(ms)), Expr::Column(c)) = (&args[0], &args[1]) {
                    if *ms > 0 {
                        return Some(
                            Some(
                                AggGroupBy::DateHistogram { column: c.clone(), interval_ms: *ms },
                            ),
                        );
                    }
                }
            }
            None
        },
        _ => None,
    }
}

fn matches_group(e: &Expr, g: &Option<AggGroupBy>) -> (r: bool)
    ensures
        r == is_group(*e, group_view(*g)),
{
    match g {
        None => false,
        Some(AggGroupBy::Keyword(c)) => match e {
            Expr::Column(d) => *d == *c,
            _ => false,
        },
        Some(AggGroupBy::DateHistogram { column, interval_ms }) => match e {
            Expr::Func { name, args } => {
                if str_eq(name.as_str(), "time_bucket") && args.len() == 2 {
                    match (&args[0], &args[1]) {
                        (Expr::Literal(Value::Int(n)), Expr::Column(d)) => *n == *interval_ms
                            && *d == *column,
                        _ => false,
                    }
                } else {
                    false
                }
            },
            _ => false,
        },
    }
}

fn make_column_metric(func: AggMetricFunc, e: &Expr) -> (r: Option<AggMetric>)
    ensures
        match r {
            Some(m) => column_metric(func, *e) == Some(m@),
            None => column_metric(func, *e) is None,
        },
{
    match e {
        Expr::Column(c) => Some(AggMetric { func, column: Some(c.clone()) }),
        _ => None,
    }
}

fn make_metric(func: AggFunc, arg: &AggArg) -> (r: Option<AggMetric>)
    ensures
        match r {
            Some(m) => metric_of(func, *arg) == Some(m@),
            None => metric_of(func, *arg) is None,
        },
{
    match arg {
        AggArg::Star => if func == AggFunc::Count {
            Some(AggMetric { func: AggMetricFunc::Count, column: None })
        } else {
            None
        },
        AggArg::ApproxDistinct(e) => if func == AggFunc::Count {
            make_column_metric(AggMetricFunc::ApproxCountDistinct, e)
        } else {
            None
        },
        AggArg::Distinct(e) => if func == AggFunc::Count {
            make_column_metric(AggMetricFunc::CountDistinct, e)
        } else {
            None
        },
        AggArg::Expr(e) => match func {
            AggFunc::Count => make_column_metric(AggMetricFunc::ValueCount, e),
            AggFunc::Sum => make_column_metric(AggMetricFunc::Sum, e),
            AggFunc::Avg => make_column_metric(AggMetricFunc::Avg, e),
            AggFunc::Min => make_column_metric(AggMetricFunc::Min, e),
            AggFunc::Max => make_column_metric(AggMetricFunc::Max, e),
            _ => None,
        },
    }
}

proof fn lemma_agg_items_prefix(items: Seq<SelectItem>, g: Option<AggGroupView>, k: int)
    requires
        0 <= k <= items.len(),
        agg_items(items.take(k), g) is None,
    ensures
        agg_items(items, g) is None,
    decreases items.len() - k,
{
    if k == items.len() {
        assert(items.take(k) =~= items);
    } else {
        assert(items.take(k + 1).drop_last() =~= items.take(k));
        lemma_agg_items_prefix(items, g, k + 1);
    }
}

/// Maps a grouped search query onto an exact in-index aggregation.
pub fn map_search_aggregate(sel: &Select) -> (r: Option<(AggRequest, Vec<AggOut>)>)
    ensures
        match r {
            None => index_aggregate(*sel) is None,
            Some((req, outs)) => index_aggregate(*sel) == Some(
                (
                    group_view(req.group_by),
                    AggItems { metrics: metric_views(req.metrics@), outs: outs@ },
                ),
            ),
        },
{
    if sel.having.is_some() || sel.order_by.len() > 0 || sel.offset.is_some()
        || sel.group_top.is_some() {
        return None;
    }
    let group_by = match find_group(&sel.group_by) {
        None => {
            return None;
        },
        Some(g) => g,
    };
    let ghost gv = group_view(group_by);
    let mut metrics: Vec<AggMetric> = Vec::new();
    let mut outs: Vec<AggOut> = Vec::new();
    let mut i: usize = 0;
    proof {
        assert(sel.items@.take(0) =~= Seq::<SelectItem>::empty());
        assert(metric_views(metrics@) =~= Seq::<MetricView>::empty());
        assert(outs@ =~= Seq::<AggOut>::empty());
    }
    while i < sel.items.len()
        invariant
            i <= sel.items@.len(),
            gv == group_view(group_by),
            group_of(sel.group_by@) == Some(gv),
            sel.having is None,
            sel.order_by@.len() == 0,
            sel.offset is None,
            sel.group_top is None,
            agg_items(sel.items@.take(i as int), gv) == Some(
                AggItems { metrics: metric_views(metrics@), outs: outs@ },
            ),
        decreases sel.items@.len() - i,
    {
        let ghost ms = metric_views(metrics@);
        let ghost os = outs@;
        proof {
            assert(sel.items@.take(i + 1).drop_last() =~= sel.items@.take(i as int));
            assert(sel.items@.take(i + 1).last() == sel.items@[i as int]);
            assert(ms.len() == metrics@.len());
            if agg_items(sel.items@.take(i + 1), gv) is None {
                lemma_agg_items_prefix(sel.items@, gv, i + 1);
            }
        }
        match &sel.items[i] {
            SelectItem::Wildcard => {
                return None;
            },
            SelectItem::Expr { expr, .. } => {
                if matches_group(expr, &group_by) {
                    outs.push(AggOut::GroupKey);
                } else {
                    match expr {
                        Expr::Aggregate { func, arg } => match make_metric(*func, arg) {
                            None => {
                                return None;
                            },
                            Some(m) => {
                                let ghost mv = m@;
                                outs.push(AggOut::Metric(metrics.len()));
                                metrics.push(m);
                                proof {
                                    assert(metric_views(metrics@) =~= ms.push(mv));
                                }
                            },
                        },
                        _ => {
                            return None;
                        },
                    }
                }
            },
        }
        i = i + 1;
    }
    proof {
        assert(sel.items@.take(sel.items@.len() as int) =~= sel.items@);
    }
    Some((AggRequest { group_by, metrics }, outs))
}

/// A row of an in-index aggregation.
pub struct AggRow {
    pub key: Value,
    pub metrics: Vec<Value>,
}

/// What an output reads from an aggregated row.
pub open spec fn agg_cell(row: AggRow, o: AggOut) -> Value {
    match o {
        AggOut::GroupKey => row.key,
        AggOut::Metric(i) => row.metrics@[i as int],
    }
}

/// The result rows of an in-index aggregation: each row's cells, cut to the
/// limit.
pub fn finish_agg_pushdown<'a>(rows: &'a Vec<AggRow>, outs: &Vec<AggOut>, limit: Option<u64>) -> (r:
    Vec<Vec<&'a Value>>)
    requires
        forall|i: int, k: int|
            0 <= i < rows@.len() && 0 <= k < outs@.len() ==> (
            #[trigger] outs@[k] matches AggOut::Metric(m) ==> m < (
            #[trigger] rows@[i]).metrics@.len()),
    ensures
        r@.len() == (match limit {
            Some(l) => if l < rows@.len() {
                l as int
            } else {
                rows@.len() as int
            },
            None => rows@.len() as int,
        }),
        forall|i: int|
            0 <= i < r@.len() ==> crate::plan::tuple((#[trigger] r@[i])@) == outs@.map_values(
                |o: AggOut| agg_cell(rows@[i], o),
            ),
{
    let total: usize = rows.len();
    let n: usize = match limit {
        Some(l) => if l < total as u64 {
            l as usize
        } else {
            total
        },
        None => total,
    };
    let mut out: Vec<Vec<&'a Value>> = Vec::new();
    let mut i: usize = 0;
    while i < n
        invariant
            i <= n,
            n <= rows@.len(),
            out@.len() == i,
            forall|i: int, k: int|
                0 <= i < rows@.len() && 0 <= k < outs@.len() ==> (
                #[trigger] outs@[k] matches AggOut::Metric(m) ==> m < (
                #[trigger] rows@[i]).metrics@.len()),
            forall|j: int|
                0 <= j < i ==> crate::plan::tuple((#[trigger] out@[j])@) == outs@.map_values(
                    |o: AggOut| agg_cell(rows@[j], o),
                ),
        decreases n - i,
    {
        let row = &rows[i];
        let mut cells: Vec<&'a Value> = Vec::new();
        let mut k: usize = 0;
        while k < outs.len()
            invariant
                k <= outs@.len(),
                i < rows@.len(),
                *row == rows@[i as int],
                forall|i: int, k: int|
                    0 <= i < rows@.len() && 0 <= k < outs@.len() ==> (
                    #[trigger] outs@[k] matches AggOut::Metric(m) ==> m < (
                    #[trigger] rows@[i]).metrics@.len()),
                cells@.len() == k,
                forall|j: int|
                    0 <= j < k ==> *(#[trigger] cells@[j]) == agg_cell(*row, outs@[j]),
            decreases outs@.len() - k,
        {
            match outs[k] {
                AggOut::GroupKey => {
                    cells.push(&row.key);
                },
                AggOut::Metric(m) => {
                    proof {
                        assert(outs@[k as int] == AggOut::Metric(m));
                        assert(m < rows@[i as int].metrics@.len());
                    }
                    cells.push(&row.metrics[m]);
                },
            }
            k = k + 1;
        }
        proof {
            assert(crate::plan::tuple(cells@) =~= outs@.map_values(
                |o: AggOut| agg_cell(rows@[i as int], o),
            ));
        }
        out.push(cells);
        i = i + 1;
    }
    out
}

/// Every output of an in-index aggregation reads a metric that was asked for.
pub proof fn outputs_read_requested_metrics(items: Seq<SelectItem>, g: Option<AggGroupView>)
    requires
        agg_items(items, g) is Some,
        items.len() <= usize::MAX,
    ensures
        agg_items(items, g)->0.outs.len() == items.len(),
        agg_items(items, g)->0.metrics.len() <= items.len(),
        forall|k: int|
            0 <= k < items.len() ==> (#[trigger] agg_items(items, g)->0.outs[k] matches AggOut::Metric(
                m,
            ) ==> m < agg_items(items, g)->0.metrics.len()),
    decreases items.len(),
{
    if items.len() > 0 {
        outputs_read_requested_metrics(items.drop_last(), g);
        let a = agg_items(items, g)->0;
        let b = agg_items(items.drop_last(), g)->0;
        assert forall|k: int| 0 <= k < items.len() implies (#[trigger] a.outs[k] matches AggOut::Metric(
            m,
        ) ==> m < a.metrics.len()) by {
            if k < items.len() - 1 {
                assert(a.outs[k] == b.outs[k]);
            }
        }
    }
}

/// The message of a search whose grouping must read every match, where the
/// gather ran into a resource limit.
pub open spec fn grouped_fallback_text(msg: Seq<char>) -> Seq<char> {
    msg
        + " [grouped search fallback: declare the GROUP BY column as a keyword fast field (WITH ('<col>.type' = 'keyword') + REBUILD SEARCH INDEX) so it answers index-side, or narrow the match set]"@
}

/// Adds to a resource-limit error of a grouped search what would avoid it; any
/// other error stays as it is.
pub fn grouped_fallback_error(e: EngineError) -> (r: EngineError)
    ensures
        match e@ {
            ErrorView::ResourceLimit(msg) => r@ == ErrorView::ResourceLimit(
                grouped_fallback_text(msg),
            ),
            _ => r == e,
        },
{
    match e {
        EngineError::ResourceLimit(msg) => EngineError::ResourceLimit(
            cat(
                msg.as_str(),
                " [grouped search fallback: declare the GROUP BY column as a keyword fast field (WITH ('<col>.type' = 'keyword') + REBUILD SEARCH INDEX) so it answers index-side, or narrow the match set]",
            ),
        ),
        other => other,
    }
}

/// Whether a cover test can be asked of every index and field, and answers by
/// the field's name alone.
pub open spec fn is_cover_test<F: Fn(&SearchIndexDef, &String) -> bool>(covers: F) -> bool {
    &&& forall|d: &SearchIndexDef, f: &String| call_requires(covers, (d, f))
    &&& forall|d: &SearchIndexDef, f: &String, g: &String, a: bool, b: bool|
        f@ == g@ && call_ensures(covers, (d, f), a) && call_ensures(covers, (d, g), b) ==> a == b
}

/// Whether an index covers a field.
pub open spec fn covers_field<F: Fn(&SearchIndexDef, &String) -> bool>(
    covers: F,
    def: SearchIndexDef,
    field: Seq<char>,
) -> bool {
    exists|f: String| f@ == field && #[trigger] call_ensures(covers, (&def, &f), true)
}

/// Whether an index is on `table` and covers every one of `fields`.
pub open spec fn serves<F: Fn(&SearchIndexDef, &String) -> bool>(
    covers: F,
    def: SearchIndexDef,
    table: Seq<char>,
    fields: Seq<Seq<char>>,
) -> bool {
    def.table@ == table && forall|i: int|
        0 <= i < fields.len() ==> covers_field(covers, def, #[trigger] fields[i])
}

/// Whether some index on `table` covers a field.
pub open spec fn covered_on<F: Fn(&SearchIndexDef, &String) -> bool>(
    covers: F,
    es: Seq<(String, SearchIndexDef)>,
    table: Seq<char>,
    field: Seq<char>,
) -> bool {
    exists|k: int|
        0 <= k < es.len() && (#[trigger] es[k]).1.table@ == table && covers_field(
            covers,
            es[k].1,
            field,
        )
}

/// The first of `fields` that no index on `table` covers; empty where each is
/// covered by one.
pub open spec fn uncovered<F: Fn(&SearchIndexDef, &String) -> bool>(
    covers: F,
    es: Seq<(String, SearchIndexDef)>,
    table: Seq<char>,
    fields: Seq<Seq<char>>,
) -> Seq<char>
    decreases fields.len(),
{
    if fields.len() == 0 {
        Seq::empty()
    } else if !covered_on(covers, es, table, fields[0]) {
        fields[0]
    } else {
        uncovered(covers, es, table, fields.skip(1))
    }
}

/// The first index in name order that serves a query over `fields` of `table`.
pub open spec fn first_serving<F: Fn(&SearchIndexDef, &String) -> bool>(
    covers: F,
    es: Seq<(String, SearchIndexDef)>,
    table: Seq<char>,
    fields: Seq<Seq<char>>,
) -> Option<Seq<char>>
    decreases es.len(),
{
    if es.len() == 0 {
        None
    } else {
        match first_serving(covers, es.drop_last(), table, fields) {
            Some(n) => Some(n),
            None => if serves(covers, es.last().1, table, fields) {
                Some(es.last().0@)
            } else {
                None
            },
        }
    }
}

/// Whether a table has a search index.
pub open spec fn has_search_index(es: Seq<(String, SearchIndexDef)>, table: Seq<char>) -> bool {
    exists|j: int| 0 <= j < es.len() && (#[trigger] es[j]).1.table@ == table
}

/// The index that serves a query over `fields` of `table`, or why none does.
pub open spec fn serving_index<F: Fn(&SearchIndexDef, &String) -> bool>(
    covers: F,
    es: Seq<(String, SearchIndexDef)>,
    table: Seq<char>,
    fields: Seq<Seq<char>>,
) -> Result<Seq<char>, ErrorView> {
    match first_serving(covers, es, table, fields) {
        Some(n) => Ok(n),
        None => if has_search_index(es, table) {
            Err(
                ErrorView::Unsupported(
                    "no search index on table '"@ + table + "' covers column '"@ + uncovered(
                        covers,
                        es,
                        table,
                        fields,
                    ) + "'"@,
                ),
            )
        } else {
            Err(ErrorView::Unsupported("table '"@ + table + "' has no search index"@))
        },
    }
}

proof fn lemma_first_serving<F: Fn(&SearchIndexDef, &String) -> bool>(
    covers: F,
    es: Seq<(String, SearchIndexDef)>,
    table: Seq<char>,
    fields: Seq<Seq<char>>,
    k: int,
)
    requires
        0 <= k <= es.len(),
        first_serving(covers, es.take(k), table, fields) is Some,
    ensures
        first_serving(covers, es, table, fields) == first_serving(
            covers,
            es.take(k),
            table,
            fields,
        ),
    decreases es.len() - k,
{
    if k == es.len() {
        assert(es.take(k) =~= es);
    } else {
        assert(es.take(k + 1).drop_last() =~= es.take(k));
        lemma_first_serving(covers, es, table, fields, k + 1);
    }
}

/// A name or an error, by what it says.
pub open spec fn name_verdict(r: Result<String, EngineError>) -> Result<Seq<char>, ErrorView> {
    match r {
        Ok(n) => Ok(n@),
        Err(e) => Err(e@),
    }
}

fn asks_cover<F: Fn(&SearchIndexDef, &String) -> bool>(
    covers: &F,
    def: &SearchIndexDef,
    field: &String,
) -> (r: bool)
    requires
        is_cover_test(*covers),
    ensures
        r == covers_field(*covers, *def, field@),
{
    covers(def, field)
}

fn covers_all<F: Fn(&SearchIndexDef, &String) -> bool>(
    covers: &F,
    def: &SearchIndexDef,
    fields: &Vec<String>,
) -> (r: bool)
    requires
        is_cover_test(*covers),
    ensures
        r == forall|i: int|
            0 <= i < views(fields@).len() ==> covers_field(
                *covers,
                *def,
                #[trigger] views(fields@)[i],
            ),
{
    let mut i: usize = 0;
    while i < fields.len()
        invariant
            is_cover_test(*covers),
            i <= fields@.len(),
            forall|j: int| 0 <= j < i ==> covers_field(*covers, *def, #[trigger] views(fields@)[j]),
        decreases fields@.len() - i,
    {
        proof {
            assert(views(fields@)[i as int] == fields@[i as int]@);
        }
        if !asks_cover(covers, def, &fields[i]) {
            return false;
        }
        i = i + 1;
    }
    true
}

fn first_uncovered<F: Fn(&SearchIndexDef, &String) -> bool>(
    covers: &F,
    m: &SortedMap<String, SearchIndexDef>,
    table: &str,
    fields: &Vec<String>,
) -> (r: String)
    requires
        is_cover_test(*covers),
        m.wf(),
    ensures
        r@ == uncovered(*covers, m.entries@, table@, views(fields@)),
{
    let ghost fs = views(fields@);
    let ghost es = m.entries@;
    let mut i: usize = 0;
    proof {
        assert(fs.skip(0) =~= fs);
    }
    while i < fields.len()
        invariant
            is_cover_test(*covers),
            m.wf(),
            es == m.entries@,
            fs == views(fields@),
            i <= fields@.len(),
            uncovered(*covers, es, table@, fs) == uncovered(*covers, es, table@, fs.skip(i as int)),
        decreases fields@.len() - i,
    {
        let mut k: usize = 0;
        let mut found: bool = false;
        while k < m.len() && !found
            invariant
                is_cover_test(*covers),
                m.wf(),
                es == m.entries@,
                i < fields@.len(),
                k <= es.len(),
                found ==> covered_on(*covers, es, table@, fields@[i as int]@),
                !found ==> forall|j: int|
                    0 <= j < k ==> !((#[trigger] es[j]).1.table@ == table@ && covers_field(
                        *covers,
                        es[j].1,
                        fields@[i as int]@,
                    )),
            decreases es.len() - k,
        {
            if m.value_at(k).on_table(table) && asks_cover(covers, m.value_at(k), &fields[i]) {
                found = true;
            }
            k = k + 1;
        }
        proof {
            assert(fs.skip(i as int)[0] == fields@[i as int]@);
            assert(fs.skip(i as int).skip(1) =~= fs.skip(i + 1));
        }
        if !found {
            return fields[i].clone();
        }
        i = i + 1;
    }
    proof {
        assert(fs.skip(fs.len() as int).len() == 0);
    }
    String::new()
}

impl Database {
    /// The search index that serves a query on `table`: the first in name
    /// order that covers every field the query names. A query string resolves
    /// its fields inside the index, so any index on the table serves it.
    pub fn search_index_for_query<F: Fn(&SearchIndexDef, &String) -> bool>(
        &self,
        table: &str,
        query: &SearchQuery,
        covers: &F,
    ) -> (r: Result<String, EngineError>)
        requires
            self.wf(),
            is_cover_test(*covers),
        ensures
            name_verdict(r) == serving_index(
                *covers,
                self.catalog.search_indexes.entries@,
                table@,
                fields_into(query_view(*query), Seq::empty()),
            ),
    {
        let mut fields: Vec<String> = Vec::new();
        proof {
            assert(views(fields@) =~= Seq::<Seq<char>>::empty());
        }
        collect_search_fields(query, &mut fields);
        let m = &self.catalog.search_indexes;
        let ghost es = m.entries@;
        let ghost fs = views(fields@);
        let mut any: bool = false;
        let mut i: usize = 0;
        proof {
            assert(es.take(0).len() == 0);
        }
        while i < m.len()
            invariant
                m.wf(),
                m == &self.catalog.search_indexes,
                es == m.entries@,
                fs == views(fields@),
                is_cover_test(*covers),
                i <= es.len(),
                fs == fields_into(query_view(*query), Seq::empty()),
                any == has_search_index(es.take(i as int), table@),
                first_serving(*covers, es.take(i as int), table@, fs) is None,
            decreases es.len() - i,
        {
            let ghost now = es.take(i as int);
            let ghost next = es.take(i + 1);
            proof {
                assert(next.drop_last() =~= now);
                assert(next.last() == es[i as int]);
            }
            let def = m.value_at(i);
            if def.on_table(table) {
                if covers_all(covers, def, &fields) {
                    proof {
                        lemma_first_serving(*covers, es, table@, fs, i + 1);
                    }
                    return Ok(m.key_at(i).clone());
                }
                any = true;
                proof {
                    assert(next[i as int].1.table@ == table@);
                }
            } else {
                proof {
                    if has_search_index(now, table@) {
                        let j = choose|j: int|
                            0 <= j < now.len() && (#[trigger] now[j]).1.table@ == table@;
                        assert(next[j].1.table@ == table@);
                    }
                    if has_search_index(next, table@) {
                        let j = choose|j: int|
                            0 <= j < next.len() && (#[trigger] next[j]).1.table@ == table@;
                        assert(now[j].1.table@ == table@);
                    }
                }
            }
            i = i + 1;
        }
        proof {
            assert(es.take(es.len() as int) =~= es);
        }
        if !any {
            return Err(unsupported_about("table '", table, "' has no search index"));
        }
        let bad = first_uncovered(covers, m, table, &fields);
        let mut msg = cat3("no search index on table '", table, "' covers column '");
        msg.append(bad.as_str());
        msg.append("'");
        Err(EngineError::Unsupported(msg))
    }
}

} // verus!
