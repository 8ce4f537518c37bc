//! Routing a `SELECT`: which executor runs it, what it fetches, and the names
//! of its columns.

use vstd::prelude::*;
use vstd::string::StringExecFns;

use crate::access::OrderRequest;
use crate::ast::AggArg;
use crate::ast::AggFunc;
use crate::ast::Expr;
use crate::ast::OrderKey;
use crate::ast::Select;
use crate::ast::SelectItem;
use crate::auth::contains_name;
use crate::database::verdict;
use crate::error::type_error;
use crate::error::unsupported;
use crate::error::EngineError;
use crate::error::ErrorView;
use crate::namespace::SEPARATOR;
use crate::order::fetch_depth;
use crate::order::page_depth;
use crate::projection::grouped;
use crate::projection::is_grouped;
use crate::search::select_uses_search;
use crate::search::uses_search;
use crate::search::with_name;
use crate::text::chars_of;
use crate::text::has_prefix;
use crate::text::join;
use crate::text::joined;
use crate::text::starts_with;
use crate::text::views;

verus! {

/// Which executor a `SELECT` is handed to, or why it is refused.
#[derive(Clone, Copy, Debug, PartialEq, Eq, Structural)]
pub enum SelectRoute {
    /// Text and vector retrieval fused by rank.
    Hybrid,
    /// Full-text search.
    Search,
    /// Everything else.
    Plain,
}

/// The executor of a `SELECT`: a fused query first, then a search one; the
/// clauses that only a search can serve are refused without one.
pub open spec fn select_route(sel: Select) -> Result<SelectRoute, ErrorView> {
    if sel.rrf is Some {
        Ok(SelectRoute::Hybrid)
    } else if uses_search(sel) {
        Ok(SelectRoute::Search)
    } else if sel.rerank is Some {
        Err(
            ErrorView::Unsupported(
                "RERANK requires a MATCH()/SEARCH() predicate in WHERE (optionally with NEAREST … RANK BY RRF)"@,
            ),
        )
    } else if sel.after is Some {
        Err(
            ErrorView::Unsupported(
                "AFTER requires a MATCH()/SEARCH() query ordered by score() DESC or a column; for filter-only queries page with `WHERE <col> > <last>` instead"@,
            ),
        )
    } else {
        Ok(SelectRoute::Plain)
    }
}

/// The executor of a `SELECT`.
pub fn route_select(sel: &Select) -> (r: Result<SelectRoute, EngineError>)
    ensures
        verdict(r) == select_route(*sel),
{
    if sel.rrf.is_some() {
        return Ok(SelectRoute::Hybrid);
    }
    if select_uses_search(sel) {
        return Ok(SelectRoute::Search);
    }
    if sel.rerank.is_some() {
        return Err(
            unsupported(
                "RERANK requires a MATCH()/SEARCH() predicate in WHERE (optionally with NEAREST … RANK BY RRF)",
            ),
        );
    }
    if sel.after.is_some() {
        return Err(
            unsupported(
                "AFTER requires a MATCH()/SEARCH() query ordered by score() DESC or a column; for filter-only queries page with `WHERE <col> > <last>` instead",
            ),
        );
    }
    Ok(SelectRoute::Plain)
}

/// The error for a `?` that was never bound.
pub open spec fn unbound_error() -> ErrorView {
    ErrorView::Type("unbound parameter (`?`) in LIMIT/OFFSET"@)
}

/// Whether the counts of a query are bound, or the error.
pub open spec fn bound_counts(sel: Select) -> Result<(), ErrorView> {
    if sel.limit_param is Some || sel.offset_param is Some {
        Err(unbound_error())
    } else {
        Ok(())
    }
}

/// Refuses a `LIMIT ?` or `OFFSET ?` that was never bound.
pub fn check_bound_counts(sel: &Select) -> (r: Result<(), EngineError>)
    ensures
        verdict(r) == bound_counts(*sel),
{
    if sel.limit_param.is_some() || sel.offset_param.is_some() {
        return Err(type_error("unbound parameter (`?`) in LIMIT/OFFSET"));
    }
    Ok(())
}

/// How a plain `SELECT` is run.
#[derive(Clone, Copy, Debug, PartialEq, Eq, Structural)]
pub enum PlainRoute {
    /// Constants over one empty row.
    Constant,
    /// A time-series table.
    Timeseries,
    /// Nearest neighbours.
    Nearest,
    /// Several cores combined.
    Compound,
    /// Joined tables.
    Join,
    /// One table.
    Simple,
}

/// How a plain `SELECT` is run. `timeseries` says whether its table is one.
pub fn route_plain(sel: &Select, timeseries: bool) -> (r: PlainRoute)
    ensures
        r == (if sel.from@.len() == 0 {
            PlainRoute::Constant
        } else if timeseries {
            PlainRoute::Timeseries
        } else if sel.nearest is Some {
            PlainRoute::Nearest
        } else if sel.set_ops@.len() > 0 {
            PlainRoute::Compound
        } else if sel.joins@.len() > 0 {
            PlainRoute::Join
        } else {
            PlainRoute::Simple
        }),
{
    if sel.from.as_str().is_empty() {
        PlainRoute::Constant
    } else if timeseries {
        PlainRoute::Timeseries
    } else if sel.nearest.is_some() {
        PlainRoute::Nearest
    } else if sel.set_ops.len() > 0 {
        PlainRoute::Compound
    } else if sel.joins.len() > 0 {
        PlainRoute::Join
    } else {
        PlainRoute::Simple
    }
}

/// What a nearest-neighbour query may not be combined with.
pub open spec fn nearest_refusal(sel: Select) -> Result<(), ErrorView> {
    if sel.joins@.len() > 0 || sel.set_ops@.len() > 0 {
        Err(ErrorView::Unsupported("NEAREST cannot be combined with JOIN or UNION"@))
    } else if grouped(sel) || sel.having is Some {
        Err(ErrorView::Unsupported("NEAREST cannot be combined with aggregates or GROUP BY"@))
    } else if sel.order_by@.len() > 0 {
        Err(
            ErrorView::Unsupported(
                "NEAREST results are already ordered by distance; ORDER BY is not supported"@,
            ),
        )
    } else {
        Ok(())
    }
}

/// Refuses what a nearest-neighbour query may not be combined with.
pub fn check_nearest(sel: &Select) -> (r: Result<(), EngineError>)
    ensures
        verdict(r) == nearest_refusal(*sel),
{
    if sel.joins.len() > 0 || sel.set_ops.len() > 0 {
        return Err(unsupported("NEAREST cannot be combined with JOIN or UNION"));
    }
    if is_grouped(sel) || sel.having.is_some() {
        return Err(unsupported("NEAREST cannot be combined with aggregates or GROUP BY"));
    }
    if sel.order_by.len() > 0 {
        return Err(
            unsupported(
                "NEAREST results are already ordered by distance; ORDER BY is not supported",
            ),
        );
    }
    Ok(())
}

/// The default output name of an expression.
pub open spec fn name_of(e: Expr) -> Seq<char> {
    match e {
        Expr::Column(path) => path@,
        Expr::Aggregate { func, .. } => match func {
            AggFunc::Count => "count"@,
            AggFunc::Sum => "sum"@,
            AggFunc::Avg => "avg"@,
            AggFunc::Min => "min"@,
            AggFunc::Max => "max"@,
            AggFunc::Rate => "rate"@,
            AggFunc::Increase => "increase"@,
            AggFunc::Delta => "delta"@,
            AggFunc::First => "first"@,
            AggFunc::Last => "last"@,
            AggFunc::Percentile(_) => "percentile"@,
        },
        Expr::Func { name, .. } => name@,
        _ => "expr"@,
    }
}

/// The default output column name of an expression.
pub fn expr_name(expr: &Expr) -> (r: String)
    ensures
        r@ == name_of(*expr),
{
    match expr {
        Expr::Column(path) => path.clone(),
        Expr::Aggregate { func, .. } => {
            let name = match func {
                AggFunc::Count => "count",
                AggFunc::Sum => "sum",
                AggFunc::Avg => "avg",
                AggFunc::Min => "min",
                AggFunc::Max => "max",
                AggFunc::Rate => "rate",
                AggFunc::Increase => "increase",
                AggFunc::Delta => "delta",
                AggFunc::First => "first",
                AggFunc::Last => "last",
                AggFunc::Percentile(_) => "percentile",
            };
            name.to_owned()
        },
        Expr::Func { name, .. } => name.clone(),
        _ => "expr".to_owned(),
    }
}

/// The output name of a projected expression: its alias, or the default name.
pub open spec fn output_name(expr: Expr, alias: Option<String>) -> Seq<char> {
    match alias {
        Some(a) => a@,
        None => name_of(expr),
    }
}

/// The output names of a projection, a wildcard standing for `fields`.
pub open spec fn output_names(items: Seq<SelectItem>, fields: Seq<Seq<char>>) -> Seq<Seq<char>>
    decreases items.len(),
{
    if items.len() == 0 {
        Seq::empty()
    } else {
        output_names(items.drop_last(), fields) + match items.last() {
            SelectItem::Wildcard => fields,
            SelectItem::Expr { expr, alias } => seq![output_name(expr, alias)],
        }
    }
}

/// The output column names of a query, a wildcard standing for `fields`.
pub fn output_columns(sel: &Select, fields: &Vec<String>) -> (r: Vec<String>)
    ensures
        views(r@) == output_names(sel.items@, views(fields@)),
{
    let ghost fs = views(fields@);
    let mut out: Vec<String> = Vec::new();
    let mut i: usize = 0;
    proof {
        assert(sel.items@.take(0) =~= Seq::<SelectItem>::empty());
        assert(views(out@) =~= Seq::<Seq<char>>::empty());
    }
    while i < sel.items.len()
        invariant
            i <= sel.items@.len(),
            fs == views(fields@),
            views(out@) == output_names(sel.items@.take(i as int), fs),
        decreases sel.items@.len() - i,
    {
        let ghost before = views(out@);
        proof {
            assert(sel.items@.take(i + 1).drop_last() =~= sel.items@.take(i as int));
            assert(sel.items@.take(i + 1).last() == sel.items@[i as int]);
        }
        match &sel.items[i] {
            SelectItem::Wildcard => {
                let mut k: usize = 0;
                proof {
                    assert(before + fs.take(0) =~= before);
                }
                while k < fields.len()
                    invariant
                        k <= fields@.len(),
                        fs == views(fields@),
                        views(out@) == before + fs.take(k as int),
                    decreases fields@.len() - k,
                {
                    let ghost prev = views(out@);
                    out.push(fields[k].clone());
                    proof {
                        assert(views(out@) =~= prev.push(fs[k as int]));
                        assert(views(out@) =~= before + fs.take(k + 1));
                    }
                    k = k + 1;
                }
                proof {
                    assert(fs.take(fs.len() as int) =~= fs);
                }
            },
            SelectItem::Expr { expr, alias } => {
                let name = match alias {
                    Some(a) => a.clone(),
                    None => expr_name(expr),
                };
                let ghost nv = name@;
                out.push(name);
                proof {
                    assert(views(out@) =~= before + seq![nv]);
                }
            },
        }
        i = i + 1;
    }
    proof {
        assert(sel.items@.take(sel.items@.len() as int) =~= sel.items@);
    }
    out
}

/// The leading `ORDER BY` key when it is a plain column, and whether it is the
/// whole of the clause.
pub fn index_order_column<'a>(order_by: &'a Vec<OrderKey>) -> (r: Option<OrderRequest<'a>>)
    ensures
        match r {
            Some(o) => order_by@.len() > 0 && order_by@[0].expr == Expr::Column(*o.col)
                && o.descending == order_by@[0].descending && o.exact == (order_by@.len() == 1),
            None => order_by@.len() == 0 || !(order_by@[0].expr is Column),
        },
{
    if order_by.len() == 0 {
        return None;
    }
    match &order_by[0].expr {
        Expr::Column(col) => Some(
            OrderRequest { col, descending: order_by[0].descending, exact: order_by.len() == 1 },
        ),
        _ => None,
    }
}

/// The number of rows that a simple query's gather may stop at: the page's
/// depth, where the rows can come in the requested order or none is
/// requested. `DISTINCT` and grouping need every row.
pub open spec fn gather_limit(sel: Select) -> Option<u64> {
    match sel.limit {
        None => None,
        Some(limit) => {
            let by_column = !grouped(sel) && sel.order_by@.len() > 0
                && sel.order_by@[0].expr is Column;
            let unordered = !grouped(sel) && sel.order_by@.len() == 0;
            if !sel.distinct && (by_column || unordered) {
                Some(fetch_depth(sel.offset, limit) as u64)
            } else {
                None
            }
        },
    }
}

/// The number of rows that a simple query's gather may stop at.
pub fn simple_fetch_limit(sel: &Select) -> (r: Option<u64>)
    ensures
        r == gather_limit(*sel),
{
    let limit: u64 = match sel.limit {
        None => {
            return None;
        },
        Some(l) => l,
    };
    if sel.distinct || is_grouped(sel) {
        return None;
    }
    if sel.order_by.len() == 0 {
        return Some(page_depth(sel.offset, limit));
    }
    match &sel.order_by[0].expr {
        Expr::Column(_) => Some(page_depth(sel.offset, limit)),
        _ => None,
    }
}

/// What a simple query can be answered from without gathering its rows.
#[derive(Clone, Copy, Debug, PartialEq, Eq, Structural)]
pub enum SimpleRoute {
    /// A lone `COUNT(*)` over the whole table.
    CountAll,
    /// A lone `COUNT(*)` over the rows that pass a filter.
    CountFiltered,
    /// The distinct values of one column.
    Distinct,
    /// Nothing short of the rows.
    Gather,
}

/// Whether a projection is a lone `COUNT(*)`.
pub open spec fn lone_count(items: Seq<SelectItem>) -> bool {
    items.len() == 1 && (items[0] matches SelectItem::Expr { expr, .. } && (
    expr matches Expr::Aggregate { func, arg } && func == AggFunc::Count && arg is Star))
}

/// Whether a projection is one plain column.
pub open spec fn lone_column(items: Seq<SelectItem>) -> bool {
    items.len() == 1 && (items[0] matches SelectItem::Expr { expr, .. } && expr is Column)
}

/// What a simple query can be answered from.
pub open spec fn simple_route(sel: Select) -> SimpleRoute {
    if sel.group_by@.len() == 0 && sel.having is None && lone_count(sel.items@) {
        if sel.filter is None {
            SimpleRoute::CountAll
        } else {
            SimpleRoute::CountFiltered
        }
    } else if sel.distinct && !grouped(sel) && sel.order_by@.len() == 0 && sel.joins@.len() == 0
        && lone_column(sel.items@) {
        SimpleRoute::Distinct
    } else {
        SimpleRoute::Gather
    }
}

/// What a simple query can be answered from.
pub fn route_simple(sel: &Select) -> (r: SimpleRoute)
    ensures
        r == simple_route(*sel),
{
    if sel.items.len() == 1 {
        if let SelectItem::Expr { expr, .. } = &sel.items[0] {
            match expr {
                Expr::Aggregate { func, arg } => {
                    if let AggArg::Star = arg {
                        if *func == AggFunc::Count && sel.group_by.len() == 0
                            && sel.having.is_none() {
                            return if sel.filter.is_none() {
                                SimpleRoute::CountAll
                            } else {
                                SimpleRoute::CountFiltered
                            };
                        }
                    }
                },
                Expr::Column(_) => {
                    if sel.distinct && !is_grouped(sel) && sel.order_by.len() == 0
                        && sel.joins.len() == 0 {
                        return SimpleRoute::Distinct;
                    }
                },
                _ => {},
            }
        }
    }
    SimpleRoute::Gather
}

/// A lone `COUNT(*)` is a grouped query, so its count is the one output row.
pub proof fn lone_count_is_grouped(sel: Select)
    requires
        lone_count(sel.items@),
    ensures
        grouped(sel),
{
    assert(crate::projection::item_aggregates(sel.items@[0]));
}

/// The columns that a filter names, added to a list in first-seen order. The
/// argument of a `DISTINCT` aggregate is not looked at.
pub open spec fn columns_into(e: Expr, out: Seq<Seq<char>>) -> Seq<Seq<char>>
    decreases e,
{
    match e {
        Expr::Column(c) => with_name(out, c@),
        Expr::Unary { expr, .. } => columns_into(*expr, out),
        Expr::IsNull { expr, .. } => columns_into(*expr, out),
        Expr::Binary { left, right, .. } => columns_into(*right, columns_into(*left, out)),
        Expr::InList { expr, list, .. } => list_columns_into(
            list,
            list@.len() as int,
            columns_into(*expr, out),
        ),
        Expr::Between { expr, lo, hi, .. } => columns_into(
            *hi,
            columns_into(*lo, columns_into(*expr, out)),
        ),
        Expr::Like { expr, pattern, .. } => columns_into(*pattern, columns_into(*expr, out)),
        Expr::Func { args, .. } => list_columns_into(args, args@.len() as int, out),
        Expr::Aggregate { arg, .. } => match arg {
            AggArg::Expr(a) => columns_into(*a, out),
            _ => out,
        },
        Expr::Literal(_) => out,
        Expr::Parameter(_) => out,
    }
}

/// The columns of the first `n` expressions added to a list in turn.
pub open spec fn list_columns_into(list: Vec<Expr>, n: int, out: Seq<Seq<char>>) -> Seq<Seq<char>>
    decreases list, n,
{
    if n <= 0 || n > list@.len() {
        out
    } else {
        columns_into(list@[n - 1], list_columns_into(list, n - 1, out))
    }
}

/// Column paths referenced anywhere in a filter, in first-seen order.
pub fn collect_filter_columns(e: &Expr, out: &mut Vec<String>)
    ensures
        views(final(out)@) == columns_into(*e, views(old(out)@)),
    decreases *e,
{
    match e {
        Expr::Column(c) => {
            if !contains_name(out, c.as_str()) {
                let ghost before = views(out@);
                out.push(c.clone());
                proof {
                    assert(views(out@) =~= before.push(c@));
                }
            }
        },
        Expr::Unary { expr, .. } => collect_filter_columns(expr, out),
        Expr::IsNull { expr, .. } => collect_filter_columns(expr, out),
        Expr::Binary { left, right, .. } => {
            collect_filter_columns(left, out);
            collect_filter_columns(right, out);
        },
        Expr::InList { expr, list, .. } => {
            collect_filter_columns(expr, out);
            collect_list_columns(list, out);
        },
        Expr::Between { expr, lo, hi, .. } => {
            collect_filter_columns(expr, out);
            collect_filter_columns(lo, out);
            collect_filter_columns(hi, out);
        },
        Expr::Like { expr, pattern, .. } => {
            collect_filter_columns(expr, out);
            collect_filter_columns(pattern, out);
        },
        Expr::Func { args, .. } => collect_list_columns(args, out),
        Expr::Aggregate { arg, .. } => match arg {
            AggArg::Expr(a) => collect_filter_columns(a, out),
            _ => {},
        },
        Expr::Literal(_) => {},
        Expr::Parameter(_) => {},
    }
}

fn collect_list_columns(list: &Vec<Expr>, out: &mut Vec<String>)
    ensures
        views(final(out)@) == list_columns_into(*list, list@.len() as int, views(old(out)@)),
    decreases *list,
{
    let ghost base = views(out@);
    let mut i: usize = 0;
    while i < list.len()
        invariant
            i <= list@.len(),
            views(out@) == list_columns_into(*list, i as int, base),
        decreases list@.len() - i,
    {
        collect_filter_columns(&list[i], out);
        i = i + 1;
    }
}

/// An internal name as shown to a user: `.` in place of the separator.
pub open spec fn dotted(s: Seq<char>) -> Seq<char> {
    s.map_values(
        |c: char|
            if c == SEPARATOR {
                '.'
            } else {
                c
            },
    )
}

/// A text with `.` in place of every name separator.
pub fn show_names(s: &str) -> (r: String)
    ensures
        r@ == dotted(s@),
{
    let cs = chars_of(s);
    let mut out = String::new();
    let mut i: usize = 0;
    proof {
        assert(out@ =~= dotted(s@.take(0)));
    }
    while i < cs.len()
        invariant
            cs@ == s@,
            i <= cs@.len(),
            out@ == dotted(s@.take(i as int)),
        decreases cs@.len() - i,
    {
        let c = cs[i];
        if c == SEPARATOR {
            out.push('.');
        } else {
            out.push(c);
        }
        proof {
            assert(dotted(s@.take(i + 1)) =~= dotted(s@.take(i as int)).push(
                if c == SEPARATOR {
                    '.'
                } else {
                    c
                },
            ));
        }
        i = i + 1;
    }
    proof {
        assert(s@.take(s@.len() as int) =~= s@);
    }
    out
}

/// The columns that an optional filter names.
pub open spec fn filter_columns(filter: Option<Expr>) -> Seq<Seq<char>> {
    match filter {
        Some(f) => columns_into(f, Seq::empty()),
        None => Seq::empty(),
    }
}

/// A scan-budget message with the table and the filter's columns behind it;
/// any other message as it is.
pub open spec fn enriched(msg: Seq<char>, table: Seq<char>, filter: Option<Expr>) -> Seq<char> {
    if !has_prefix(msg, "scan budget exceeded"@) {
        msg
    } else if filter_columns(filter).len() == 0 {
        msg + " [table "@ + dotted(table) + "]"@
    } else {
        msg + " [table "@ + dotted(table) + ", filter column(s): "@ + joined(
            filter_columns(filter),
            ", "@,
        ) + "]"@
    }
}

/// Appends the table and the filter columns to a scan-budget message, so that
/// the index to add can be read off it.
pub fn enrich_scan_budget(msg: &str, table: &str, filter: &Option<Expr>) -> (r: String)
    ensures
        r@ == enriched(msg@, table@, *filter),
{
    if !starts_with(msg, "scan budget exceeded") {
        return msg.to_owned();
    }
    let mut cols: Vec<String> = Vec::new();
    proof {
        assert(views(cols@) =~= Seq::<Seq<char>>::empty());
    }
    if let Some(f) = filter {
        collect_filter_columns(f, &mut cols);
    }
    proof {
        assert(views(cols@).len() == cols@.len());
    }
    let mut out = msg.to_owned();
    out.append(" [table ");
    out.append(show_names(table).as_str());
    if cols.len() > 0 {
        out.append(", filter column(s): ");
        out.append(join(&cols, ", ").as_str());
    }
    out.append("]");
    out
}

} // verus!
