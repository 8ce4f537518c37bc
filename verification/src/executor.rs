//! The data statements carried out against a cluster.

use vstd::prelude::*;

use crate::aggregate::decides_groups;
use crate::aggregate::evaluates_groups;
use crate::aggregate::is_clock_reader;
use crate::aggregate::is_comparison;
use crate::aggregate::is_finisher;
use crate::ast::AggFunc;
use crate::ast::AggArg;
use crate::aggregate::AggOutcome;
use crate::ast::Expr;
use crate::ast::Select;
use crate::ast::SelectItem;
use crate::cluster::keyed_wf;
use crate::cluster::on_table;
use crate::cluster::Cluster;
use crate::cluster::Refusal;
use crate::counting::count_result;
use crate::counting::distinct_result;
use crate::dispatch::data_handler;
use crate::dispatch::DataHandler;
use crate::error::unsupported;
use crate::error::EngineError;
use crate::error::ErrorView;
use crate::execute::constant_row;
use crate::execute::insert_rows;
use crate::execute::inserted_rows;
use crate::execute::is_decider;
use crate::execute::is_encoder;
use crate::execute::is_evaluator;
use crate::execute::keyed_views;
use crate::execute::row_view;
use crate::execute::run_const_select;
use crate::execute::update_row;
use crate::grouping::all_docs;
use crate::grouping::is_group_decider;
use crate::grouping::is_group_evaluator;
use crate::grouping::project;
use crate::grouping::projected;
use crate::join::gather_join_docs;
use crate::join::hidden_keys;
use crate::join::is_join_keyer;
use crate::join::join_hidden_keys;
use crate::join::join_result;
use crate::join::tables_view;
use crate::join::tables_wf;
use crate::model::doc_view;
use crate::model::Fields;
use crate::model::ValueView;
use crate::order::is_ranking;
use crate::order::page;
use crate::order::Rank;
use crate::projection::group_by_projection_columns;
use crate::projection::grouped;
use crate::projection::is_grouped;
use crate::projection::prunable;
use crate::projection::query_reads;
use crate::projection::NameSet;
use crate::results::add_leg;
use crate::results::docs_wf;
use crate::results::finalize_compound;
use crate::results::finalized;
use crate::results::rows_view;
use crate::results::rows_wf;
use crate::results::with_set_op;
use crate::results::ResultSet;
use crate::results::ResultView;
use crate::search::select_uses_search;
use crate::search::uses_search;
use crate::select_plan::bound_counts;
use crate::select_plan::check_bound_counts;
use crate::select_plan::enrich_scan_budget;
use crate::select_plan::enriched;
use crate::select_plan::gather_limit;
use crate::select_plan::index_order_column;
use crate::select_plan::output_names;
use crate::select_plan::route_plain;
use crate::select_plan::route_select;
use crate::select_plan::route_simple;
use crate::select_plan::simple_fetch_limit;
use crate::select_plan::simple_route;
use crate::select_plan::PlainRoute;
use crate::select_plan::SelectRoute;
use crate::select_plan::SimpleRoute;
use crate::statement::Delete;
use crate::statement::Insert;
use crate::statement::Statement;
use crate::statement::Update;
use crate::text::views;
use crate::value::Document;
use crate::value::Value;
use crate::writes::delete_writes;
use crate::writes::insert_writes;
use crate::writes::lemma_update_fails;
use crate::writes::update_writes;
use crate::writes::WriteView;

verus! {

/// What expressions mean to the executor: how they are evaluated and decided
/// over a row and over a group, how values compare, and how group keys, rows
/// and join keys are encoded. Of a group, the aggregates are those of this
/// library: `compare` and `clock` order its values and rows, and `finish` makes
/// the value of an aggregate that ends in floating point.
pub struct Semantics<F, G, K, D, A, H, P, J, M, T, Z> {
    pub eval: F,
    pub rank: G,
    pub group_key: K,
    pub row_key: D,
    pub group_eval: A,
    pub group_decide: H,
    pub decide: P,
    pub join_key: J,
    pub compare: M,
    pub clock: T,
    pub finish: Z,
}

/// Whether each of them always answers the same, and what is said of groups is
/// what their aggregates come to.
pub open spec fn sound<
    F: Fn(&Expr, &Document) -> Result<Value, EngineError>,
    G: Fn(&Value, &Value) -> Rank,
    K: Fn(&Vec<&Value>) -> Vec<u8>,
    D: Fn(&Vec<&Value>) -> Vec<u8>,
    A: Fn(&Expr, &Vec<&Document>) -> Result<Value, EngineError>,
    H: Fn(&Expr, &Vec<&Document>) -> Result<bool, EngineError>,
    P: Fn(&Expr, &Document) -> Result<bool, EngineError>,
    J: Fn(&Document, &String) -> Option<Vec<u8>>,
    M: Fn(&Value, &Value) -> Option<Rank>,
    T: Fn(&Value) -> Option<i64>,
    Z: Fn(&AggFunc, &AggArg, &Vec<&Document>, AggOutcome) -> Result<Value, EngineError>,
>(s: Semantics<F, G, K, D, A, H, P, J, M, T, Z>) -> bool {
    &&& is_evaluator(s.eval)
    &&& is_ranking(s.rank)
    &&& is_encoder(s.group_key)
    &&& is_encoder(s.row_key)
    &&& is_group_evaluator(s.group_eval)
    &&& is_group_decider(s.group_decide)
    &&& is_decider(s.decide)
    &&& is_join_keyer(s.join_key)
    &&& is_comparison(s.compare)
    &&& is_clock_reader(s.clock)
    &&& is_finisher(s.finish)
    &&& evaluates_groups(s.eval, s.group_key, s.compare, s.clock, s.finish, s.group_eval)
    &&& decides_groups(
        s.eval,
        s.group_key,
        s.compare,
        s.clock,
        s.finish,
        s.decide,
        s.group_decide,
    )
}

/// What keyed rows hold, without their keys.
pub open spec fn fields_of(rows: Seq<(Seq<u8>, Fields)>) -> Seq<Fields> {
    rows.map_values(|r: (Seq<u8>, Fields)| r.1)
}

fn documents(rows: Vec<(Vec<u8>, Document)>) -> (r: Vec<Document>)
    requires
        keyed_wf(rows@),
    ensures
        all_docs(r@) == fields_of(keyed_views(rows@)),
        docs_wf(r@),
{
    let ghost all = rows@;
    let mut out: Vec<Document> = Vec::new();
    for row in it: rows
        invariant
            it.seq() == all,
            keyed_wf(all),
            out@.len() == it.index(),
            forall|i: int| 0 <= i < out@.len() ==> #[trigger] out@[i] == all[i].1,
    {
        let (_, doc) = row;
        out.push(doc);
    }
    proof {
        assert(all_docs(out@) =~= fields_of(keyed_views(all)));
        assert forall|i: int| 0 <= i < out@.len() implies crate::model::doc_wf(
            #[trigger] out@[i],
        ) by {
            assert(out@[i] == all[i].1);
            assert(crate::model::doc_wf(all[i].1));
        }
    }
    out
}

/// The projection of a query's gathered rows.
pub open spec fn shown<
    F: Fn(&Expr, &Document) -> Result<Value, EngineError>,
    G: Fn(&Value, &Value) -> Rank,
    K: Fn(&Vec<&Value>) -> Vec<u8>,
    D: Fn(&Vec<&Value>) -> Vec<u8>,
    A: Fn(&Expr, &Vec<&Document>) -> Result<Value, EngineError>,
    H: Fn(&Expr, &Vec<&Document>) -> Result<bool, EngineError>,
    P: Fn(&Expr, &Document) -> Result<bool, EngineError>,
    J: Fn(&Document, &String) -> Option<Vec<u8>>,
    M: Fn(&Value, &Value) -> Option<Rank>,
    T: Fn(&Value) -> Option<i64>,
    Z: Fn(&AggFunc, &AggArg, &Vec<&Document>, AggOutcome) -> Result<Value, EngineError>,
>(
    s: Semantics<F, G, K, D, A, H, P, J, M, T, Z>,
    sel: Select,
    ms: Seq<Fields>,
    presorted: bool,
    hide: Set<Seq<char>>,
    finalize: bool,
) -> Result<ResultView, ErrorView> {
    projected(
        s.eval,
        s.rank,
        s.group_key,
        s.row_key,
        s.group_eval,
        s.group_decide,
        sel,
        ms,
        presorted,
        hide,
        finalize,
    )
}

pub(crate) fn show<
    F: Fn(&Expr, &Document) -> Result<Value, EngineError>,
    G: Fn(&Value, &Value) -> Rank,
    K: Fn(&Vec<&Value>) -> Vec<u8>,
    D: Fn(&Vec<&Value>) -> Vec<u8>,
    A: Fn(&Expr, &Vec<&Document>) -> Result<Value, EngineError>,
    H: Fn(&Expr, &Vec<&Document>) -> Result<bool, EngineError>,
    P: Fn(&Expr, &Document) -> Result<bool, EngineError>,
    J: Fn(&Document, &String) -> Option<Vec<u8>>,
    M: Fn(&Value, &Value) -> Option<Rank>,
    T: Fn(&Value) -> Option<i64>,
    Z: Fn(&AggFunc, &AggArg, &Vec<&Document>, AggOutcome) -> Result<Value, EngineError>,
>(
    s: &Semantics<F, G, K, D, A, H, P, J, M, T, Z>,
    sel: &Select,
    docs: Vec<Document>,
    presorted: bool,
    hide: &NameSet,
    finalize: bool,
) -> (r: Result<ResultSet, EngineError>)
    requires
        sound(*s),
        docs_wf(docs@),
        hide.wf(),
    ensures
        result_is(r, shown(*s, *sel, all_docs(docs@), presorted, hide@, finalize)),
{
    project(
        &s.eval,
        &s.rank,
        &s.group_key,
        &s.row_key,
        &s.group_eval,
        &s.group_decide,
        sel,
        &docs,
        presorted,
        hide,
        finalize,
    )
}

/// Whether a result holds what it should, its values in order.
pub open spec fn result_is(
    r: Result<ResultSet, EngineError>,
    v: Result<ResultView, ErrorView>,
) -> bool {
    match r {
        Ok(rs) => v == Ok::<ResultView, ErrorView>(rs@) && rows_wf(rs.rows@),
        Err(e) => v == Err::<ResultView, ErrorView>(e@),
    }
}

/// The count that answers a lone `COUNT(*)`: the table's own, or that of a
/// covering index, and failing those the count of the matching rows; nothing
/// for another query or where none can be had.
pub open spec fn lone_count_of<C: Cluster>(c: C, sel: Select) -> Result<Option<usize>, ErrorView> {
    let quick = match simple_route(sel) {
        SimpleRoute::CountAll => Some(c.row_count(sel.from@)),
        SimpleRoute::CountFiltered => Some(c.covered_count(sel.from@, sel.filter)),
        _ => None,
    };
    match quick {
        None => Ok(None),
        Some(Ok(None)) => c.match_count(sel.from@, sel.filter),
        Some(n) => n,
    }
}

/// Whether each count that a deployment gives of a table is the number of the
/// rows that it would hand out.
pub open spec fn counts_its_rows<C: Cluster>(c: C, table: Seq<char>) -> bool {
    &&& c.row_count(table) matches Ok(Some(n)) ==> (c.rows_of(table, None) matches Ok(rows)
        && rows.len() == n)
    &&& forall|f: Option<Expr>| #[trigger]
        c.covered_count(table, f) matches Ok(Some(n)) ==> (c.rows_of(table, f) matches Ok(rows)
            && rows.len() == n)
    &&& forall|f: Option<Expr>| #[trigger]
        c.match_count(table, f) matches Ok(Some(n)) ==> (c.rows_of(table, f) matches Ok(rows)
            && rows.len() == n)
}

/// A `COUNT(*)` that is answered without the rows is still their number: of
/// all of the table's rows without a filter, else of those that pass it.
pub proof fn a_lone_count_is_the_number_of_rows<C: Cluster>(c: C, sel: Select)
    requires
        counts_its_rows(c, sel.from@),
    ensures
        lone_count_of(c, sel) matches Ok(Some(n)) ==> (c.rows_of(
            sel.from@,
            sel.filter,
        ) matches Ok(rows) && rows.len() == n),
{
}

/// The values that answer `SELECT DISTINCT <column>`; nothing for another
/// query or where they cannot be had without the rows.
pub open spec fn lone_values_of<C: Cluster>(c: C, sel: Select) -> Result<
    Option<Seq<ValueView>>,
    ErrorView,
> {
    if simple_route(sel) == SimpleRoute::Distinct {
        c.values_of(sel.from@, lone_column_of(sel), sel.filter)
    } else {
        Ok(None)
    }
}

/// The column of a query that shows one plain column.
pub open spec fn lone_column_of(sel: Select) -> Seq<char> {
    match sel.items@[0] {
        SelectItem::Expr { expr: Expr::Column(c), .. } => c@,
        _ => Seq::empty(),
    }
}

/// The order that a simple query asks of its gather.
pub open spec fn gather_order(sel: Select) -> Option<(Seq<char>, bool, bool)> {
    if grouped(sel) || sel.order_by@.len() == 0 {
        None
    } else {
        match sel.order_by@[0].expr {
            Expr::Column(c) => Some(
                (c@, sel.order_by@[0].descending, sel.order_by@.len() == 1),
            ),
            _ => None,
        }
    }
}

/// A row for each value.
pub open spec fn value_rows(vs: Seq<ValueView>) -> Seq<Seq<ValueView>> {
    vs.map_values(|v: ValueView| seq![v])
}

/// The fields that a query can read.
pub open spec fn fields_read(sel: Select) -> Set<Seq<char>> {
    Set::new(|c: Seq<char>| query_reads(sel, c))
}

/// The result of a query over one table.
pub open spec fn simple_result<
    C: Cluster,
    F: Fn(&Expr, &Document) -> Result<Value, EngineError>,
    G: Fn(&Value, &Value) -> Rank,
    K: Fn(&Vec<&Value>) -> Vec<u8>,
    D: Fn(&Vec<&Value>) -> Vec<u8>,
    A: Fn(&Expr, &Vec<&Document>) -> Result<Value, EngineError>,
    H: Fn(&Expr, &Vec<&Document>) -> Result<bool, EngineError>,
    P: Fn(&Expr, &Document) -> Result<bool, EngineError>,
    J: Fn(&Document, &String) -> Option<Vec<u8>>,
    M: Fn(&Value, &Value) -> Option<Rank>,
    T: Fn(&Value) -> Option<i64>,
    Z: Fn(&AggFunc, &AggArg, &Vec<&Document>, AggOutcome) -> Result<Value, EngineError>,
>(c: C, s: Semantics<F, G, K, D, A, H, P, J, M, T, Z>, sel: Select) -> Result<ResultView, ErrorView> {
    match lone_count_of(c, sel) {
        Err(e) => Err(e),
        Ok(Some(n)) => Ok(
            ResultView {
                columns: output_names(sel.items@, Seq::empty()),
                rows: page(seq![seq![ValueView::Int(n as i64)]], sel.offset, sel.limit),
            },
        ),
        Ok(None) => match lone_values_of(c, sel) {
            Err(e) => Err(e),
            Ok(Some(vs)) => Ok(
                ResultView {
                    columns: output_names(sel.items@, Seq::empty()),
                    rows: page(value_rows(vs), sel.offset, sel.limit),
                },
            ),
            Ok(None) => if prunable(sel) {
                match c.projected_rows_of(sel.from@, sel.filter, fields_read(sel)) {
                    Err(e) => Err(e),
                    Ok(rows) => shown(s, sel, fields_of(rows), false, Set::empty(), true),
                }
            } else {
                match c.ordered_rows_of(
                    sel.from@,
                    sel.filter,
                    gather_order(sel),
                    gather_limit(sel),
                ) {
                    Err(e) => Err(e),
                    Ok((rows, sorted)) => shown(
                        s,
                        sel,
                        fields_of(rows),
                        sorted,
                        Set::empty(),
                        true,
                    ),
                }
            },
        },
    }
}

/// The count that answers a lone `COUNT(*)`.
fn find_lone_count<C: Cluster>(c: &C, sel: &Select) -> (r: Result<Option<usize>, EngineError>)
    ensures
        match r {
            Ok(n) => lone_count_of(*c, *sel) == Ok::<Option<usize>, ErrorView>(n),
            Err(e) => lone_count_of(*c, *sel) == Err::<Option<usize>, ErrorView>(e@),
        },
{
    let quick = match route_simple(sel) {
        SimpleRoute::CountAll => c.count_rows(sel.from.as_str()),
        SimpleRoute::CountFiltered => c.count_filtered(sel.from.as_str(), &sel.filter),
        _ => {
            return Ok(None);
        },
    };
    match quick {
        Err(e) => Err(e),
        Ok(None) => c.count_matching(sel.from.as_str(), &sel.filter),
        Ok(Some(n)) => Ok(Some(n)),
    }
}

/// The values that answer `SELECT DISTINCT <column>`.
fn find_lone_values<C: Cluster>(c: &C, sel: &Select) -> (r: Result<
    Option<Vec<Value>>,
    EngineError,
>)
    ensures
        match r {
            Ok(None) => lone_values_of(*c, *sel) == Ok::<Option<Seq<ValueView>>, ErrorView>(None),
            Ok(Some(vs)) => lone_values_of(*c, *sel) == Ok::<Option<Seq<ValueView>>, ErrorView>(
                Some(row_view(vs@)),
            ) && crate::execute::row_wf(vs@),
            Err(e) => lone_values_of(*c, *sel) == Err::<Option<Seq<ValueView>>, ErrorView>(e@),
        },
{
    match route_simple(sel) {
        SimpleRoute::Distinct => {},
        _ => {
            return Ok(None);
        },
    }
    match &sel.items[0] {
        SelectItem::Expr { expr, .. } => match expr {
            Expr::Column(col) => c.distinct_values(sel.from.as_str(), col.as_str(), &sel.filter),
            _ => Ok(None),
        },
        SelectItem::Wildcard => Ok(None),
    }
}

/// Runs a query over one table: from a count or a set of values where one
/// answers it, else over the rows gathered.
pub fn run_simple_select<
    C: Cluster,
    F: Fn(&Expr, &Document) -> Result<Value, EngineError>,
    G: Fn(&Value, &Value) -> Rank,
    K: Fn(&Vec<&Value>) -> Vec<u8>,
    D: Fn(&Vec<&Value>) -> Vec<u8>,
    A: Fn(&Expr, &Vec<&Document>) -> Result<Value, EngineError>,
    H: Fn(&Expr, &Vec<&Document>) -> Result<bool, EngineError>,
    P: Fn(&Expr, &Document) -> Result<bool, EngineError>,
    J: Fn(&Document, &String) -> Option<Vec<u8>>,
    M: Fn(&Value, &Value) -> Option<Rank>,
    T: Fn(&Value) -> Option<i64>,
    Z: Fn(&AggFunc, &AggArg, &Vec<&Document>, AggOutcome) -> Result<Value, EngineError>,
>(c: &C, s: &Semantics<F, G, K, D, A, H, P, J, M, T, Z>, sel: &Select) -> (r: Result<ResultSet, EngineError>)
    requires
        sound(*s),
    ensures
        result_is(r, simple_result(*c, *s, *sel)),
{
    match find_lone_count(c, sel) {
        Err(e) => {
            return Err(e);
        },
        Ok(Some(n)) => {
            return Ok(count_result(sel, n));
        },
        Ok(None) => {},
    }
    match find_lone_values(c, sel) {
        Err(e) => {
            return Err(e);
        },
        Ok(Some(vs)) => {
            proof {
                assert(crate::aggregate::single_rows(vs@) =~= value_rows(row_view(vs@)));
            }
            return Ok(distinct_result(sel, vs));
        },
        Ok(None) => {},
    }
    let none = NameSet::new();
    proof {
        assert(none@ =~= Set::<Seq<char>>::empty());
    }
    if let Some(fields) = group_by_projection_columns(sel) {
        proof {
            assert(fields@ =~= fields_read(*sel));
        }
        return match c.matching_rows_projected(sel.from.as_str(), &sel.filter, &fields) {
            Err(e) => Err(e),
            Ok(rows) => show(s, sel, documents(rows), false, &none, true),
        };
    }
    let order = if is_grouped(sel) {
        None
    } else {
        index_order_column(&sel.order_by)
    };
    let limit = simple_fetch_limit(sel);
    match c.matching_rows_ordered(sel.from.as_str(), &sel.filter, order, limit) {
        Err(e) => Err(e),
        Ok((rows, sorted)) => show(s, sel, documents(rows), sorted, &none, true),
    }
}

/// The table of the source at `i` of a joined query: the `FROM` table, then
/// each joined one.
pub open spec fn source_table(sel: Select, i: int) -> Seq<char> {
    if i == 0 {
        sel.from@
    } else {
        sel.joins@[i - 1].table@
    }
}

/// The rows of the first `n` sources of a joined query, each in full.
pub open spec fn sources_of<C: Cluster>(c: C, sel: Select, n: nat) -> Result<
    Seq<Seq<Fields>>,
    ErrorView,
>
    decreases n,
{
    if n == 0 {
        Ok(Seq::empty())
    } else {
        match sources_of(c, sel, (n - 1) as nat) {
            Err(e) => Err(e),
            Ok(ts) => match c.rows_of(source_table(sel, n - 1), None) {
                Err(e) => Err(e),
                Ok(rows) => Ok(ts.push(fields_of(rows))),
            },
        }
    }
}

proof fn lemma_sources_fail<C: Cluster>(c: C, sel: Select, m: nat, n: nat)
    requires
        m <= n,
        sources_of(c, sel, m) is Err,
    ensures
        sources_of(c, sel, n) == sources_of(c, sel, m),
    decreases n - m,
{
    if m < n {
        lemma_sources_fail(c, sel, m, (n - 1) as nat);
    }
}

fn gather_sources<C: Cluster>(c: &C, sel: &Select) -> (r: Result<Vec<Vec<Document>>, EngineError>)
    ensures
        match r {
            Ok(ts) => sources_of(*c, *sel, (sel.joins@.len() + 1) as nat) == Ok::<
                Seq<Seq<Fields>>,
                ErrorView,
            >(tables_view(ts@)) && tables_wf(ts@) && ts@.len() == sel.joins@.len() + 1,
            Err(e) => sources_of(*c, *sel, (sel.joins@.len() + 1) as nat) == Err::<
                Seq<Seq<Fields>>,
                ErrorView,
            >(e@),
        },
{
    let none: Option<Expr> = None;
    let mut out: Vec<Vec<Document>> = Vec::new();
    let ghost n = (sel.joins@.len() + 1) as nat;
    proof {
        assert(tables_view(out@) =~= Seq::<Seq<Fields>>::empty());
    }
    match c.matching_rows(sel.from.as_str(), &none) {
        Err(e) => {
            proof {
                reveal_with_fuel(sources_of, 2);
                lemma_sources_fail(*c, *sel, 1, n);
            }
            return Err(e);
        },
        Ok(rows) => {
            out.push(documents(rows));
        },
    }
    proof {
        reveal_with_fuel(sources_of, 2);
        assert(tables_view(out@) =~= sources_of(*c, *sel, 1)->Ok_0);
    }
    let mut i: usize = 0;
    while i < sel.joins.len()
        invariant
            none is None,
            n == sel.joins@.len() + 1,
            i <= sel.joins@.len(),
            out@.len() == i + 1,
            tables_wf(out@),
            sources_of(*c, *sel, (i + 1) as nat) == Ok::<Seq<Seq<Fields>>, ErrorView>(
                tables_view(out@),
            ),
        decreases sel.joins@.len() - i,
    {
        let ghost before = tables_view(out@);
        match c.matching_rows(sel.joins[i].table.as_str(), &none) {
            Err(e) => {
                proof {
                    lemma_sources_fail(*c, *sel, (i + 2) as nat, n);
                }
                return Err(e);
            },
            Ok(rows) => {
                let docs = documents(rows);
                proof {
                    assert(tables_view(out@.push(docs)) =~= before.push(all_docs(docs@)));
                }
                out.push(docs);
            },
        }
        i = i + 1;
    }
    Ok(out)
}

/// The documents of a joined query.
pub open spec fn joined_rows<
    C: Cluster,
    F: Fn(&Expr, &Document) -> Result<Value, EngineError>,
    G: Fn(&Value, &Value) -> Rank,
    K: Fn(&Vec<&Value>) -> Vec<u8>,
    D: Fn(&Vec<&Value>) -> Vec<u8>,
    A: Fn(&Expr, &Vec<&Document>) -> Result<Value, EngineError>,
    H: Fn(&Expr, &Vec<&Document>) -> Result<bool, EngineError>,
    P: Fn(&Expr, &Document) -> Result<bool, EngineError>,
    J: Fn(&Document, &String) -> Option<Vec<u8>>,
    M: Fn(&Value, &Value) -> Option<Rank>,
    T: Fn(&Value) -> Option<i64>,
    Z: Fn(&AggFunc, &AggArg, &Vec<&Document>, AggOutcome) -> Result<Value, EngineError>,
>(c: C, s: Semantics<F, G, K, D, A, H, P, J, M, T, Z>, sel: Select) -> Result<Seq<Fields>, ErrorView> {
    match sources_of(c, sel, (sel.joins@.len() + 1) as nat) {
        Err(e) => Err(e),
        Ok(ts) => match join_result(s.decide, s.join_key, sel, ts) {
            Err(e) => Err(e@),
            Ok(ms) => Ok(ms),
        },
    }
}

fn join_rows<
    C: Cluster,
    F: Fn(&Expr, &Document) -> Result<Value, EngineError>,
    G: Fn(&Value, &Value) -> Rank,
    K: Fn(&Vec<&Value>) -> Vec<u8>,
    D: Fn(&Vec<&Value>) -> Vec<u8>,
    A: Fn(&Expr, &Vec<&Document>) -> Result<Value, EngineError>,
    H: Fn(&Expr, &Vec<&Document>) -> Result<bool, EngineError>,
    P: Fn(&Expr, &Document) -> Result<bool, EngineError>,
    J: Fn(&Document, &String) -> Option<Vec<u8>>,
    M: Fn(&Value, &Value) -> Option<Rank>,
    T: Fn(&Value) -> Option<i64>,
    Z: Fn(&AggFunc, &AggArg, &Vec<&Document>, AggOutcome) -> Result<Value, EngineError>,
>(c: &C, s: &Semantics<F, G, K, D, A, H, P, J, M, T, Z>, sel: &Select) -> (r: Result<Vec<Document>, EngineError>)
    requires
        sound(*s),
    ensures
        match r {
            Ok(docs) => joined_rows(*c, *s, *sel) == Ok::<Seq<Fields>, ErrorView>(all_docs(docs@))
                && docs_wf(docs@),
            Err(e) => joined_rows(*c, *s, *sel) == Err::<Seq<Fields>, ErrorView>(e@),
        },
{
    match gather_sources(c, sel) {
        Err(e) => Err(e),
        Ok(ts) => gather_join_docs(&s.decide, &s.join_key, sel, &ts),
    }
}

/// The result of a query without a table: its one row.
pub open spec fn constant_result<F: Fn(&Expr, &Document) -> Result<Value, EngineError>>(
    f: F,
    sel: Select,
) -> Result<ResultView, ErrorView> {
    match constant_row(f, sel.items@) {
        Err(e) => Err(e),
        Ok((columns, row)) => Ok(ResultView { columns, rows: seq![row] }),
    }
}

fn constant<F: Fn(&Expr, &Document) -> Result<Value, EngineError>>(f: &F, sel: &Select) -> (r:
    Result<ResultSet, EngineError>)
    requires
        is_evaluator(*f),
    ensures
        result_is(r, constant_result(*f, *sel)),
{
    match run_const_select(f, sel) {
        Err(e) => Err(e),
        Ok((columns, row)) => {
            let mut rows: Vec<Vec<Value>> = Vec::new();
            let ghost v = row_view(row@);
            rows.push(row);
            proof {
                assert(rows_view(rows@) =~= seq![v]);
            }
            Ok(ResultSet { columns, rows })
        },
    }
}

/// The rows of one core of a compound query, neither sorted nor cut to a page.
pub open spec fn core_result<
    C: Cluster,
    F: Fn(&Expr, &Document) -> Result<Value, EngineError>,
    G: Fn(&Value, &Value) -> Rank,
    K: Fn(&Vec<&Value>) -> Vec<u8>,
    D: Fn(&Vec<&Value>) -> Vec<u8>,
    A: Fn(&Expr, &Vec<&Document>) -> Result<Value, EngineError>,
    H: Fn(&Expr, &Vec<&Document>) -> Result<bool, EngineError>,
    P: Fn(&Expr, &Document) -> Result<bool, EngineError>,
    J: Fn(&Document, &String) -> Option<Vec<u8>>,
    M: Fn(&Value, &Value) -> Option<Rank>,
    T: Fn(&Value) -> Option<i64>,
    Z: Fn(&AggFunc, &AggArg, &Vec<&Document>, AggOutcome) -> Result<Value, EngineError>,
>(c: C, s: Semantics<F, G, K, D, A, H, P, J, M, T, Z>, sel: Select) -> Result<ResultView, ErrorView> {
    if sel.from@.len() == 0 {
        constant_result(s.eval, sel)
    } else {
        let ms = if prunable(sel) {
            match c.projected_rows_of(sel.from@, sel.filter, fields_read(sel)) {
                Err(e) => Err(e),
                Ok(rows) => Ok(fields_of(rows)),
            }
        } else if sel.joins@.len() == 0 {
            match c.rows_of(sel.from@, sel.filter) {
                Err(e) => Err(e),
                Ok(rows) => Ok(fields_of(rows)),
            }
        } else {
            joined_rows(c, s, sel)
        };
        match ms {
            Err(e) => Err(e),
            Ok(ms) => shown(s, sel, ms, false, hidden_keys(sel), false),
        }
    }
}

/// Projects one core of a compound query.
pub fn project_core<
    C: Cluster,
    F: Fn(&Expr, &Document) -> Result<Value, EngineError>,
    G: Fn(&Value, &Value) -> Rank,
    K: Fn(&Vec<&Value>) -> Vec<u8>,
    D: Fn(&Vec<&Value>) -> Vec<u8>,
    A: Fn(&Expr, &Vec<&Document>) -> Result<Value, EngineError>,
    H: Fn(&Expr, &Vec<&Document>) -> Result<bool, EngineError>,
    P: Fn(&Expr, &Document) -> Result<bool, EngineError>,
    J: Fn(&Document, &String) -> Option<Vec<u8>>,
    M: Fn(&Value, &Value) -> Option<Rank>,
    T: Fn(&Value) -> Option<i64>,
    Z: Fn(&AggFunc, &AggArg, &Vec<&Document>, AggOutcome) -> Result<Value, EngineError>,
>(c: &C, s: &Semantics<F, G, K, D, A, H, P, J, M, T, Z>, sel: &Select) -> (r: Result<ResultSet, EngineError>)
    requires
        sound(*s),
    ensures
        result_is(r, core_result(*c, *s, *sel)),
{
    if sel.from.as_str().is_empty() {
        return constant(&s.eval, sel);
    }
    let docs = match group_by_projection_columns(sel) {
        Some(fields) => {
            proof {
                assert(fields@ =~= fields_read(*sel));
            }
            match c.matching_rows_projected(sel.from.as_str(), &sel.filter, &fields) {
                Err(e) => {
                    return Err(e);
                },
                Ok(rows) => documents(rows),
            }
        },
        None => if sel.joins.len() == 0 {
            match c.matching_rows(sel.from.as_str(), &sel.filter) {
                Err(e) => {
                    return Err(e);
                },
                Ok(rows) => documents(rows),
            }
        } else {
            match join_rows(c, s, sel) {
                Err(e) => {
                    return Err(e);
                },
                Ok(docs) => docs,
            }
        },
    };
    let hide = join_hidden_keys(sel);
    show(s, sel, docs, false, &hide, false)
}

/// The rows of a compound query's first core with the first `n` legs added.
pub open spec fn legs_result<
    C: Cluster,
    F: Fn(&Expr, &Document) -> Result<Value, EngineError>,
    G: Fn(&Value, &Value) -> Rank,
    K: Fn(&Vec<&Value>) -> Vec<u8>,
    D: Fn(&Vec<&Value>) -> Vec<u8>,
    A: Fn(&Expr, &Vec<&Document>) -> Result<Value, EngineError>,
    H: Fn(&Expr, &Vec<&Document>) -> Result<bool, EngineError>,
    P: Fn(&Expr, &Document) -> Result<bool, EngineError>,
    J: Fn(&Document, &String) -> Option<Vec<u8>>,
    M: Fn(&Value, &Value) -> Option<Rank>,
    T: Fn(&Value) -> Option<i64>,
    Z: Fn(&AggFunc, &AggArg, &Vec<&Document>, AggOutcome) -> Result<Value, EngineError>,
>(c: C, s: Semantics<F, G, K, D, A, H, P, J, M, T, Z>, sel: Select, n: nat) -> Result<ResultView, ErrorView>
    decreases n,
{
    if n == 0 {
        core_result(c, s, sel)
    } else {
        match legs_result(c, s, sel, (n - 1) as nat) {
            Err(e) => Err(e),
            Ok(rs) => match core_result(c, s, sel.set_ops@[n - 1].select) {
                Err(e) => Err(e),
                Ok(leg) => with_set_op(s.row_key, rs, leg, sel.set_ops@[n - 1].all),
            },
        }
    }
}

proof fn lemma_legs_fail<
    C: Cluster,
    F: Fn(&Expr, &Document) -> Result<Value, EngineError>,
    G: Fn(&Value, &Value) -> Rank,
    K: Fn(&Vec<&Value>) -> Vec<u8>,
    D: Fn(&Vec<&Value>) -> Vec<u8>,
    A: Fn(&Expr, &Vec<&Document>) -> Result<Value, EngineError>,
    H: Fn(&Expr, &Vec<&Document>) -> Result<bool, EngineError>,
    P: Fn(&Expr, &Document) -> Result<bool, EngineError>,
    J: Fn(&Document, &String) -> Option<Vec<u8>>,
    M: Fn(&Value, &Value) -> Option<Rank>,
    T: Fn(&Value) -> Option<i64>,
    Z: Fn(&AggFunc, &AggArg, &Vec<&Document>, AggOutcome) -> Result<Value, EngineError>,
>(c: C, s: Semantics<F, G, K, D, A, H, P, J, M, T, Z>, sel: Select, m: nat, n: nat)
    requires
        m <= n,
        legs_result(c, s, sel, m) is Err,
    ensures
        legs_result(c, s, sel, n) == legs_result(c, s, sel, m),
    decreases n - m,
{
    if m < n {
        lemma_legs_fail(c, s, sel, m, (n - 1) as nat);
    }
}

/// The result of a compound query: its legs one after the other, then the
/// whole query's `DISTINCT`, order and page; or why it is refused.
pub open spec fn compound_result<
    C: Cluster,
    F: Fn(&Expr, &Document) -> Result<Value, EngineError>,
    G: Fn(&Value, &Value) -> Rank,
    K: Fn(&Vec<&Value>) -> Vec<u8>,
    D: Fn(&Vec<&Value>) -> Vec<u8>,
    A: Fn(&Expr, &Vec<&Document>) -> Result<Value, EngineError>,
    H: Fn(&Expr, &Vec<&Document>) -> Result<bool, EngineError>,
    P: Fn(&Expr, &Document) -> Result<bool, EngineError>,
    J: Fn(&Document, &String) -> Option<Vec<u8>>,
    M: Fn(&Value, &Value) -> Option<Rank>,
    T: Fn(&Value) -> Option<i64>,
    Z: Fn(&AggFunc, &AggArg, &Vec<&Document>, AggOutcome) -> Result<Value, EngineError>,
>(c: C, s: Semantics<F, G, K, D, A, H, P, J, M, T, Z>, sel: Select) -> Result<ResultView, ErrorView> {
    match legs_result(c, s, sel, sel.set_ops@.len()) {
        Err(e) => Err(e),
        Ok(rs) => match finalized(s.eval, s.rank, s.row_key, sel, rs) {
            Err(e) => Err(e@),
            Ok(out) => Ok(out),
        },
    }
}

/// Runs a compound query.
pub fn run_compound<
    C: Cluster,
    F: Fn(&Expr, &Document) -> Result<Value, EngineError>,
    G: Fn(&Value, &Value) -> Rank,
    K: Fn(&Vec<&Value>) -> Vec<u8>,
    D: Fn(&Vec<&Value>) -> Vec<u8>,
    A: Fn(&Expr, &Vec<&Document>) -> Result<Value, EngineError>,
    H: Fn(&Expr, &Vec<&Document>) -> Result<bool, EngineError>,
    P: Fn(&Expr, &Document) -> Result<bool, EngineError>,
    J: Fn(&Document, &String) -> Option<Vec<u8>>,
    M: Fn(&Value, &Value) -> Option<Rank>,
    T: Fn(&Value) -> Option<i64>,
    Z: Fn(&AggFunc, &AggArg, &Vec<&Document>, AggOutcome) -> Result<Value, EngineError>,
>(c: &C, s: &Semantics<F, G, K, D, A, H, P, J, M, T, Z>, sel: &Select) -> (r: Result<ResultSet, EngineError>)
    requires
        sound(*s),
    ensures
        result_is(r, compound_result(*c, *s, *sel)),
{
    let ghost n = sel.set_ops@.len();
    let mut rs = match project_core(c, s, sel) {
        Err(e) => {
            proof {
                lemma_legs_fail(*c, *s, *sel, 0, n);
            }
            return Err(e);
        },
        Ok(rs) => rs,
    };
    let mut i: usize = 0;
    while i < sel.set_ops.len()
        invariant
            sound(*s),
            n == sel.set_ops@.len(),
            i <= n,
            rows_wf(rs.rows@),
            legs_result(*c, *s, *sel, i as nat) == Ok::<ResultView, ErrorView>(rs@),
        decreases n - i,
    {
        let op = &sel.set_ops[i];
        let leg = match project_core(c, s, &op.select) {
            Err(e) => {
                proof {
                    lemma_legs_fail(*c, *s, *sel, (i + 1) as nat, n);
                }
                return Err(e);
            },
            Ok(leg) => leg,
        };
        rs = match add_leg(&s.row_key, rs, leg, op.all) {
            Err(e) => {
                proof {
                    lemma_legs_fail(*c, *s, *sel, (i + 1) as nat, n);
                }
                return Err(e);
            },
            Ok(rs) => rs,
        };
        i = i + 1;
    }
    finalize_compound(&s.eval, &s.rank, &s.row_key, sel, rs)
}

/// What a plain query comes to: its rows, or that another executor takes it.
pub enum Shown {
    Rows(ResultSet),
    /// A time-series table's, with its series-key columns.
    Timeseries(Vec<String>),
    /// A nearest-neighbour search's.
    Nearest,
}

/// What a plain query comes to.
pub enum ShownView {
    Rows(ResultView),
    Timeseries(Seq<Seq<char>>),
    Nearest,
}

/// Whether a plain query came to what it should.
pub open spec fn shown_is(r: Result<Shown, EngineError>, v: Result<ShownView, ErrorView>) -> bool {
    match r {
        Ok(Shown::Rows(rs)) => v == Ok::<ShownView, ErrorView>(ShownView::Rows(rs@)) && rows_wf(
            rs.rows@,
        ),
        Ok(Shown::Timeseries(k)) => v == Ok::<ShownView, ErrorView>(
            ShownView::Timeseries(crate::text::views(k@)),
        ),
        Ok(Shown::Nearest) => v == Ok::<ShownView, ErrorView>(ShownView::Nearest),
        Err(e) => v == Err::<ShownView, ErrorView>(e@),
    }
}

/// Rows as what a plain query comes to.
pub open spec fn as_rows(v: Result<ResultView, ErrorView>) -> Result<ShownView, ErrorView> {
    match v {
        Ok(rs) => Ok(ShownView::Rows(rs)),
        Err(e) => Err(e),
    }
}

/// What a plain query comes to, by its shape.
pub open spec fn plain_result<
    C: Cluster,
    F: Fn(&Expr, &Document) -> Result<Value, EngineError>,
    G: Fn(&Value, &Value) -> Rank,
    K: Fn(&Vec<&Value>) -> Vec<u8>,
    D: Fn(&Vec<&Value>) -> Vec<u8>,
    A: Fn(&Expr, &Vec<&Document>) -> Result<Value, EngineError>,
    H: Fn(&Expr, &Vec<&Document>) -> Result<bool, EngineError>,
    P: Fn(&Expr, &Document) -> Result<bool, EngineError>,
    J: Fn(&Document, &String) -> Option<Vec<u8>>,
    M: Fn(&Value, &Value) -> Option<Rank>,
    T: Fn(&Value) -> Option<i64>,
    Z: Fn(&AggFunc, &AggArg, &Vec<&Document>, AggOutcome) -> Result<Value, EngineError>,
>(c: C, s: Semantics<F, G, K, D, A, H, P, J, M, T, Z>, sel: Select) -> Result<ShownView, ErrorView> {
    if sel.from@.len() == 0 {
        as_rows(constant_result(s.eval, sel))
    } else {
        match c.series_key(sel.from@) {
            Err(e) => Err(e),
            Ok(Some(k)) => Ok(ShownView::Timeseries(k)),
            Ok(None) => if sel.nearest is Some {
                Ok(ShownView::Nearest)
            } else if sel.set_ops@.len() > 0 {
                as_rows(compound_result(c, s, sel))
            } else if sel.joins@.len() > 0 {
                as_rows(
                    match joined_rows(c, s, sel) {
                        Err(e) => Err(e),
                        Ok(ms) => shown(s, sel, ms, false, hidden_keys(sel), true),
                    },
                )
            } else {
                as_rows(simple_result(c, s, sel))
            },
        }
    }
}

fn rows_shown(r: Result<ResultSet, EngineError>) -> (out: Result<Shown, EngineError>)
    ensures
        forall|v: Result<ResultView, ErrorView>| result_is(r, v) ==> shown_is(out, as_rows(v)),
{
    match r {
        Ok(rs) => Ok(Shown::Rows(rs)),
        Err(e) => Err(e),
    }
}

/// Runs a plain query by its shape.
pub fn run_select_impl<
    C: Cluster,
    F: Fn(&Expr, &Document) -> Result<Value, EngineError>,
    G: Fn(&Value, &Value) -> Rank,
    K: Fn(&Vec<&Value>) -> Vec<u8>,
    D: Fn(&Vec<&Value>) -> Vec<u8>,
    A: Fn(&Expr, &Vec<&Document>) -> Result<Value, EngineError>,
    H: Fn(&Expr, &Vec<&Document>) -> Result<bool, EngineError>,
    P: Fn(&Expr, &Document) -> Result<bool, EngineError>,
    J: Fn(&Document, &String) -> Option<Vec<u8>>,
    M: Fn(&Value, &Value) -> Option<Rank>,
    T: Fn(&Value) -> Option<i64>,
    Z: Fn(&AggFunc, &AggArg, &Vec<&Document>, AggOutcome) -> Result<Value, EngineError>,
>(c: &C, s: &Semantics<F, G, K, D, A, H, P, J, M, T, Z>, sel: &Select) -> (r: Result<Shown, EngineError>)
    requires
        sound(*s),
    ensures
        shown_is(r, plain_result(*c, *s, *sel)),
{
    if sel.from.as_str().is_empty() {
        return rows_shown(constant(&s.eval, sel));
    }
    match c.ts_series_key(sel.from.as_str()) {
        Err(e) => {
            return Err(e);
        },
        Ok(Some(k)) => {
            return Ok(Shown::Timeseries(k));
        },
        Ok(None) => {},
    }
    match route_plain(sel, false) {
        PlainRoute::Nearest => Ok(Shown::Nearest),
        PlainRoute::Compound => rows_shown(run_compound(c, s, sel)),
        PlainRoute::Join => match join_rows(c, s, sel) {
            Err(e) => Err(e),
            Ok(docs) => {
                let hide = join_hidden_keys(sel);
                rows_shown(show(s, sel, docs, false, &hide, true))
            },
        },
        _ => rows_shown(run_simple_select(c, s, sel)),
    }
}

/// What a plain query comes to, a scan-budget refusal naming the table and the
/// filter's columns.
pub open spec fn select_result<
    C: Cluster,
    F: Fn(&Expr, &Document) -> Result<Value, EngineError>,
    G: Fn(&Value, &Value) -> Rank,
    K: Fn(&Vec<&Value>) -> Vec<u8>,
    D: Fn(&Vec<&Value>) -> Vec<u8>,
    A: Fn(&Expr, &Vec<&Document>) -> Result<Value, EngineError>,
    H: Fn(&Expr, &Vec<&Document>) -> Result<bool, EngineError>,
    P: Fn(&Expr, &Document) -> Result<bool, EngineError>,
    J: Fn(&Document, &String) -> Option<Vec<u8>>,
    M: Fn(&Value, &Value) -> Option<Rank>,
    T: Fn(&Value) -> Option<i64>,
    Z: Fn(&AggFunc, &AggArg, &Vec<&Document>, AggOutcome) -> Result<Value, EngineError>,
>(c: C, s: Semantics<F, G, K, D, A, H, P, J, M, T, Z>, sel: Select) -> Result<ShownView, ErrorView> {
    match bound_counts(sel) {
        Err(e) => Err(e),
        Ok(()) => match plain_result(c, s, sel) {
            Err(ErrorView::ResourceLimit(msg)) => Err(
                ErrorView::ResourceLimit(enriched(msg, sel.from@, sel.filter)),
            ),
            other => other,
        },
    }
}

/// Runs a plain query.
pub fn run_select<
    C: Cluster,
    F: Fn(&Expr, &Document) -> Result<Value, EngineError>,
    G: Fn(&Value, &Value) -> Rank,
    K: Fn(&Vec<&Value>) -> Vec<u8>,
    D: Fn(&Vec<&Value>) -> Vec<u8>,
    A: Fn(&Expr, &Vec<&Document>) -> Result<Value, EngineError>,
    H: Fn(&Expr, &Vec<&Document>) -> Result<bool, EngineError>,
    P: Fn(&Expr, &Document) -> Result<bool, EngineError>,
    J: Fn(&Document, &String) -> Option<Vec<u8>>,
    M: Fn(&Value, &Value) -> Option<Rank>,
    T: Fn(&Value) -> Option<i64>,
    Z: Fn(&AggFunc, &AggArg, &Vec<&Document>, AggOutcome) -> Result<Value, EngineError>,
>(c: &C, s: &Semantics<F, G, K, D, A, H, P, J, M, T, Z>, sel: &Select) -> (r: Result<Shown, EngineError>)
    requires
        sound(*s),
    ensures
        shown_is(r, select_result(*c, *s, *sel)),
{
    if let Err(e) = check_bound_counts(sel) {
        return Err(e);
    }
    match run_select_impl(c, s, sel) {
        Ok(out) => Ok(out),
        Err(e) => match e {
            EngineError::ResourceLimit(msg) => Err(
                EngineError::ResourceLimit(
                    enrich_scan_budget(msg.as_str(), sel.from.as_str(), &sel.filter),
                ),
            ),
            other => Err(other),
        },
    }
}

/// What an `INSERT` writes: the samples of a time-series table, or keyed rows.
pub enum InsertView {
    Timeseries(Seq<Seq<char>>),
    Rows(Seq<(Seq<u8>, Fields)>),
}

/// What an `INSERT` writes, or why it is refused before anything is written.
pub open spec fn insert_target<C: Cluster, F: Fn(&Expr, &Document) -> Result<Value, EngineError>, D: Fn(&Vec<&Value>) -> Vec<u8>>(
    c: C,
    f: F,
    d: D,
    ins: Insert,
) -> Result<InsertView, ErrorView> {
    match c.series_key(ins.table@) {
        Err(e) => Err(e),
        Ok(Some(k)) => Ok(InsertView::Timeseries(k)),
        Ok(None) => match c.key_columns(ins.table@) {
            Err(e) => Err(e),
            Ok(pk) => match inserted_rows(f, d, pk, ins.columns@, ins.rows@) {
                Err(e) => Err(e),
                Ok(rows) => Ok(InsertView::Rows(rows)),
            },
        },
    }
}

/// What an `INSERT` comes to.
pub enum Inserted {
    /// The number of rows written.
    Rows(usize),
    /// The samples go to the time-series engine, with the series-key columns.
    Timeseries(Vec<String>),
}

/// Runs an `INSERT`: every row is made before the first is written, and they
/// are written together.
pub fn run_insert<
    C: Cluster,
    F: Fn(&Expr, &Document) -> Result<Value, EngineError>,
    G: Fn(&Value, &Value) -> Rank,
    K: Fn(&Vec<&Value>) -> Vec<u8>,
    D: Fn(&Vec<&Value>) -> Vec<u8>,
    A: Fn(&Expr, &Vec<&Document>) -> Result<Value, EngineError>,
    H: Fn(&Expr, &Vec<&Document>) -> Result<bool, EngineError>,
    P: Fn(&Expr, &Document) -> Result<bool, EngineError>,
    J: Fn(&Document, &String) -> Option<Vec<u8>>,
    M: Fn(&Value, &Value) -> Option<Rank>,
    T: Fn(&Value) -> Option<i64>,
    Z: Fn(&AggFunc, &AggArg, &Vec<&Document>, AggOutcome) -> Result<Value, EngineError>,
>(c: &mut C, s: &Semantics<F, G, K, D, A, H, P, J, M, T, Z>, ins: &Insert) -> (r: Result<Inserted, EngineError>)
    requires
        sound(*s),
    ensures
        match insert_target(*old(c), s.eval, s.row_key, *ins) {
            Err(e) => (r matches Err(x) && x@ == e) && final(c).acknowledged()
                == old(c).acknowledged(),
            Ok(InsertView::Timeseries(k)) => (r matches Ok(Inserted::Timeseries(x)) && views(x@)
                == k) && final(c).acknowledged() == old(c).acknowledged(),
            Ok(InsertView::Rows(rows)) => match r {
                Ok(Inserted::Rows(n)) => n == rows.len() && final(c).acknowledged() == old(c).acknowledged() + on_table(ins.table@, insert_writes(rows)),
                Ok(_) => false,
                Err(e) => final(c).last_refusal() == Some(
                    Refusal { asked: on_table(ins.table@, insert_writes(rows)), error: e@ },
                ),
            },
        },
{
    match c.ts_series_key(ins.table.as_str()) {
        Err(e) => {
            return Err(e);
        },
        Ok(Some(k)) => {
            return Ok(Inserted::Timeseries(k));
        },
        Ok(None) => {},
    }
    let pk = match c.primary_key(ins.table.as_str()) {
        Err(e) => {
            return Err(e);
        },
        Ok(pk) => pk,
    };
    let rows = match insert_rows(&s.eval, &s.row_key, &pk, &ins.columns, &ins.rows) {
        Err(e) => {
            return Err(e);
        },
        Ok(rows) => rows,
    };
    proof {
        assert(keyed_views(rows@).len() == rows@.len());
    }
    match c.put_batch(ins.table.as_str(), &rows) {
        Err(e) => Err(e),
        Ok(()) => Ok(Inserted::Rows(rows.len())),
    }
}

/// The refusal of a change to the samples of a time-series table.
pub open spec fn append_only(update: bool) -> ErrorView {
    if update {
        ErrorView::Unsupported("time-series tables are append-only; UPDATE is not supported"@)
    } else {
        ErrorView::Unsupported(
            "time-series tables are append-only; expired data is dropped by RETENTION"@,
        )
    }
}

/// The key columns and the rows that an `UPDATE` is made to, or why it is
/// refused before anything is written.
pub open spec fn update_target<C: Cluster>(c: C, upd: Update) -> Result<
    (Seq<Seq<char>>, Seq<(Seq<u8>, Fields)>),
    ErrorView,
> {
    match c.series_key(upd.table@) {
        Err(e) => Err(e),
        Ok(Some(_)) => Err(append_only(true)),
        Ok(None) => match c.key_columns(upd.table@) {
            Err(e) => Err(e),
            Ok(pk) => match c.rows_of(upd.table@, upd.filter) {
                Err(e) => Err(e),
                Ok(rows) => Ok((pk, rows)),
            },
        },
    }
}

/// What a statement's writes leave behind: all of them acknowledged where it
/// succeeds; where it fails, those before the one that was then asked for and
/// refused, with the error of that refusal, or all of them where the statement
/// itself cannot go on.
pub open spec fn left_behind<C: Cluster>(
    before: C,
    after: C,
    table: Seq<char>,
    ws: Seq<WriteView>,
    failed: Option<ErrorView>,
    rows: nat,
    r: Result<usize, EngineError>,
) -> bool {
    match r {
        Ok(n) => n == rows && failed is None && after.acknowledged() == before.acknowledged()
            + on_table(table, ws),
        Err(e) => exists|m: int|
            0 <= m <= ws.len() && after.acknowledged() == before.acknowledged() + #[trigger] on_table(
                table,
                ws.take(m),
            ) && (if m == ws.len() {
                failed == Some(e@)
            } else {
                after.last_refusal() == Some(Refusal { asked: seq![(table, ws[m])], error: e@ })
            }),
    }
}

proof fn lemma_update_prefix<
    F: Fn(&Expr, &Document) -> Result<Value, EngineError>,
    D: Fn(&Vec<&Value>) -> Vec<u8>,
>(
    f: F,
    d: D,
    pk: Seq<Seq<char>>,
    rows: Seq<(Seq<u8>, Fields)>,
    assignments: Seq<(String, Expr)>,
    n: int,
)
    requires
        0 <= n <= rows.len(),
    ensures
        ({
            let some = update_writes(f, d, pk, rows.take(n), assignments).0;
            let all = update_writes(f, d, pk, rows, assignments).0;
            some.len() <= all.len() && all.take(some.len() as int) == some
        }),
    decreases rows.len() - n,
{
    if n == rows.len() {
        assert(rows.take(n) =~= rows);
        let all = update_writes(f, d, pk, rows, assignments).0;
        assert(all.take(all.len() as int) =~= all);
    } else {
        assert(rows.take(n + 1).drop_last() =~= rows.take(n));
        lemma_update_prefix(f, d, pk, rows, assignments, n + 1);
        let some = update_writes(f, d, pk, rows.take(n), assignments).0;
        let more = update_writes(f, d, pk, rows.take(n + 1), assignments).0;
        let all = update_writes(f, d, pk, rows, assignments).0;
        assert(more.take(some.len() as int) =~= some);
        assert(all.take(some.len() as int) =~= all.take(more.len() as int).take(some.len() as int));
    }
}

proof fn lemma_on_table(table: Seq<char>, a: Seq<WriteView>, w: WriteView)
    ensures
        on_table(table, a.push(w)) == on_table(table, a).push((table, w)),
{
    assert(on_table(table, a.push(w)) =~= on_table(table, a).push((table, w)));
}

/// Runs an `UPDATE`: each matching row in turn, the new row before the old
/// key's delete.
pub fn run_update<
    C: Cluster,
    F: Fn(&Expr, &Document) -> Result<Value, EngineError>,
    G: Fn(&Value, &Value) -> Rank,
    K: Fn(&Vec<&Value>) -> Vec<u8>,
    D: Fn(&Vec<&Value>) -> Vec<u8>,
    A: Fn(&Expr, &Vec<&Document>) -> Result<Value, EngineError>,
    H: Fn(&Expr, &Vec<&Document>) -> Result<bool, EngineError>,
    P: Fn(&Expr, &Document) -> Result<bool, EngineError>,
    J: Fn(&Document, &String) -> Option<Vec<u8>>,
    M: Fn(&Value, &Value) -> Option<Rank>,
    T: Fn(&Value) -> Option<i64>,
    Z: Fn(&AggFunc, &AggArg, &Vec<&Document>, AggOutcome) -> Result<Value, EngineError>,
>(c: &mut C, s: &Semantics<F, G, K, D, A, H, P, J, M, T, Z>, upd: &Update) -> (r: Result<usize, EngineError>)
    requires
        sound(*s),
    ensures
        match update_target(*old(c), *upd) {
            Err(e) => (r matches Err(x) && x@ == e) && final(c).acknowledged()
                == old(c).acknowledged(),
            Ok((pk, rows)) => {
                let made = update_writes(s.eval, s.row_key, pk, rows, upd.assignments@);
                left_behind(*old(c), *final(c), upd.table@, made.0, made.1, rows.len(), r)
            },
        },
{
    match c.ts_series_key(upd.table.as_str()) {
        Err(e) => {
            return Err(e);
        },
        Ok(Some(_)) => {
            return Err(unsupported("time-series tables are append-only; UPDATE is not supported"));
        },
        Ok(None) => {},
    }
    let pk = match c.primary_key(upd.table.as_str()) {
        Err(e) => {
            return Err(e);
        },
        Ok(pk) => pk,
    };
    let rows = match c.matching_rows(upd.table.as_str(), &upd.filter) {
        Err(e) => {
            return Err(e);
        },
        Ok(rows) => rows,
    };
    let ghost base = c.acknowledged();
    let ghost ps = views(pk@);
    let ghost rs = keyed_views(rows@);
    let ghost all = update_writes(s.eval, s.row_key, ps, rs, upd.assignments@);
    let ghost table = upd.table@;
    let mut i: usize = 0;
    proof {
        assert(rs.take(0) =~= Seq::<(Seq<u8>, Fields)>::empty());
        assert(base + on_table(table, Seq::empty()) =~= base);
    }
    while i < rows.len()
        invariant
            sound(*s),
            keyed_wf(rows@),
            base == old(c).acknowledged(),
            ps == views(pk@),
            rs == keyed_views(rows@),
            all == update_writes(s.eval, s.row_key, ps, rs, upd.assignments@),
            table == upd.table@,
            update_target(*old(c), *upd) == Ok::<
                (Seq<Seq<char>>, Seq<(Seq<u8>, Fields)>),
                ErrorView,
            >((ps, rs)),
            i <= rows@.len(),
            update_writes(s.eval, s.row_key, ps, rs.take(i as int), upd.assignments@).1 is None,
            c.acknowledged() == base + on_table(
                table,
                update_writes(s.eval, s.row_key, ps, rs.take(i as int), upd.assignments@).0,
            ),
        decreases rows@.len() - i,
    {
        let ghost so_far = update_writes(
            s.eval,
            s.row_key,
            ps,
            rs.take(i as int),
            upd.assignments@,
        ).0;
        let ghost next = update_writes(s.eval, s.row_key, ps, rs.take(i + 1), upd.assignments@);
        proof {
            assert(rs.take(i + 1).drop_last() =~= rs.take(i as int));
            assert(rs.take(i + 1).last() == rs[i as int]);
            assert(rs[i as int] == (rows@[i as int].0@, doc_view(rows@[i as int].1)));
            assert(crate::model::doc_wf(rows@[i as int].1));
            lemma_update_prefix(s.eval, s.row_key, ps, rs, upd.assignments@, i as int);
            lemma_update_prefix(s.eval, s.row_key, ps, rs, upd.assignments@, i + 1);
        }
        match update_row(&s.eval, &s.row_key, &pk, &rows[i].0, &rows[i].1, &upd.assignments) {
            Err(e) => {
                proof {
                    lemma_update_fails(s.eval, s.row_key, ps, rs, upd.assignments@, i + 1);
                    assert(all.0 == so_far);
                    assert(all.0.take(all.0.len() as int) =~= all.0);
                    assert(on_table(table, all.0.take(so_far.len() as int)) == on_table(
                        table,
                        so_far,
                    ));
                }
                return Err(e);
            },
            Ok(u) => {
                let ghost put = WriteView::Put(u.key@, doc_view(u.doc));
                let ghost gone = WriteView::Delete(rs[i as int].0, rs[i as int].1);
                proof {
                    lemma_on_table(table, so_far, put);
                    lemma_on_table(table, so_far.push(put), gone);
                    assert(next.0 =~= if u.delete_old {
                        so_far.push(put).push(gone)
                    } else {
                        so_far.push(put)
                    });
                    let n = so_far.len() as int;
                    assert(all.0.take(n) == so_far);
                    assert(all.0.take(n + 1) =~= all.0.take(next.0.len() as int).take(n + 1));
                    assert(all.0.take(n + 1) =~= so_far.push(put));
                }
                if let Err(e) = c.put(upd.table.as_str(), &u.key, &u.doc) {
                    proof {
                        assert(c.acknowledged() == base + on_table(
                            table,
                            all.0.take(so_far.len() as int),
                        ));
                        assert(all.0[so_far.len() as int] == all.0.take(
                            so_far.len() as int + 1,
                        )[so_far.len() as int]);
                    }
                    return Err(e);
                }
                proof {
                    assert(c.acknowledged() =~= base + on_table(table, so_far.push(put)));
                }
                if u.delete_old {
                    if let Err(e) = c.delete(upd.table.as_str(), &rows[i].0, &rows[i].1) {
                        proof {
                            assert(c.acknowledged() == base + on_table(
                                table,
                                all.0.take(so_far.len() as int + 1),
                            ));
                            assert(all.0[so_far.len() as int + 1] == all.0.take(
                                next.0.len() as int,
                            )[so_far.len() as int + 1]);
                        }
                        return Err(e);
                    }
                    proof {
                        assert(c.acknowledged() =~= base + on_table(
                            table,
                            so_far.push(put).push(gone),
                        ));
                    }
                }
            },
        }
        i = i + 1;
    }
    proof {
        assert(rs.take(rs.len() as int) =~= rs);
    }
    Ok(rows.len())
}

/// The rows that a `DELETE` is made to, or why it is refused before anything
/// is written.
pub open spec fn delete_target<C: Cluster>(c: C, del: Delete) -> Result<
    Seq<(Seq<u8>, Fields)>,
    ErrorView,
> {
    match c.series_key(del.table@) {
        Err(e) => Err(e),
        Ok(Some(_)) => Err(append_only(false)),
        Ok(None) => c.rows_of(del.table@, del.filter),
    }
}

/// Runs a `DELETE`: each matching row in turn.
pub fn run_delete<C: Cluster>(c: &mut C, del: &Delete) -> (r: Result<usize, EngineError>)
    ensures
        match delete_target(*old(c), *del) {
            Err(e) => (r matches Err(x) && x@ == e) && final(c).acknowledged()
                == old(c).acknowledged(),
            Ok(rows) => left_behind(
                *old(c),
                *final(c),
                del.table@,
                delete_writes(rows),
                None,
                rows.len(),
                r,
            ),
        },
{
    match c.ts_series_key(del.table.as_str()) {
        Err(e) => {
            return Err(e);
        },
        Ok(Some(_)) => {
            return Err(
                unsupported(
                    "time-series tables are append-only; expired data is dropped by RETENTION",
                ),
            );
        },
        Ok(None) => {},
    }
    let rows = match c.matching_rows(del.table.as_str(), &del.filter) {
        Err(e) => {
            return Err(e);
        },
        Ok(rows) => rows,
    };
    let ghost base = c.acknowledged();
    let ghost rs = keyed_views(rows@);
    let ghost ws = delete_writes(rs);
    let ghost table = del.table@;
    let mut i: usize = 0;
    proof {
        assert(base + on_table(table, ws.take(0)) =~= base);
    }
    while i < rows.len()
        invariant
            base == old(c).acknowledged(),
            rs == keyed_views(rows@),
            ws == delete_writes(rs),
            table == del.table@,
            delete_target(*old(c), *del) == Ok::<Seq<(Seq<u8>, Fields)>, ErrorView>(rs),
            i <= rows@.len(),
            c.acknowledged() == base + on_table(table, ws.take(i as int)),
        decreases rows@.len() - i,
    {
        if let Err(e) = c.delete(del.table.as_str(), &rows[i].0, &rows[i].1) {
            proof {
                assert(i < ws.len());
                assert(rs[i as int] == (rows@[i as int].0@, doc_view(rows@[i as int].1)));
                assert(ws[i as int] == WriteView::Delete(rs[i as int].0, rs[i as int].1));
            }
            return Err(e);
        }
        proof {
            assert(rs[i as int] == (rows@[i as int].0@, doc_view(rows@[i as int].1)));
            assert(ws[i as int] == WriteView::Delete(rs[i as int].0, rs[i as int].1));
            assert(ws.take(i + 1) =~= ws.take(i as int).push(ws[i as int]));
            lemma_on_table(table, ws.take(i as int), ws[i as int]);
            assert(c.acknowledged() =~= base + on_table(table, ws.take(i + 1)));
        }
        i = i + 1;
    }
    proof {
        assert(ws.take(ws.len() as int) =~= ws);
    }
    Ok(rows.len())
}

/// What a data statement comes to.
pub enum Ran {
    Shown(Shown),
    Inserted(Inserted),
    /// The number of rows an `UPDATE` or a `DELETE` was made to.
    Changed(usize),
    /// The fused text and vector search takes it.
    Hybrid,
    /// The full-text search takes it.
    Search,
}

/// Runs a data statement whose output aliases are resolved.
pub fn run<
    C: Cluster,
    F: Fn(&Expr, &Document) -> Result<Value, EngineError>,
    G: Fn(&Value, &Value) -> Rank,
    K: Fn(&Vec<&Value>) -> Vec<u8>,
    D: Fn(&Vec<&Value>) -> Vec<u8>,
    A: Fn(&Expr, &Vec<&Document>) -> Result<Value, EngineError>,
    H: Fn(&Expr, &Vec<&Document>) -> Result<bool, EngineError>,
    P: Fn(&Expr, &Document) -> Result<bool, EngineError>,
    J: Fn(&Document, &String) -> Option<Vec<u8>>,
    M: Fn(&Value, &Value) -> Option<Rank>,
    T: Fn(&Value) -> Option<i64>,
    Z: Fn(&AggFunc, &AggArg, &Vec<&Document>, AggOutcome) -> Result<Value, EngineError>,
>(c: &mut C, s: &Semantics<F, G, K, D, A, H, P, J, M, T, Z>, stmt: &Statement) -> (r: Result<Ran, EngineError>)
    requires
        sound(*s),
    ensures
        match data_handler(*stmt) {
            Err(e) => (r matches Err(x) && x@ == e) && final(c).acknowledged()
                == old(c).acknowledged(),
            Ok(DataHandler::Insert) => stmt matches Statement::Insert(ins) && match insert_target(
                *old(c),
                s.eval,
                s.row_key,
                *ins,
            ) {
                Err(e) => (r matches Err(x) && x@ == e) && final(c).acknowledged()
                    == old(c).acknowledged(),
                Ok(InsertView::Timeseries(k)) => (r matches Ok(
                    Ran::Inserted(Inserted::Timeseries(x)),
                ) && views(x@) == k) && final(c).acknowledged() == old(c).acknowledged(),
                Ok(InsertView::Rows(rows)) => match r {
                    Ok(Ran::Inserted(Inserted::Rows(n))) => n == rows.len() && final(c).acknowledged() == old(c).acknowledged() + on_table(
                        ins.table@,
                        insert_writes(rows),
                    ),
                    Ok(_) => false,
                    Err(e) => final(c).last_refusal() == Some(
                        Refusal { asked: on_table(ins.table@, insert_writes(rows)), error: e@ },
                    ),
                },
            },
            Ok(DataHandler::Select(SelectRoute::Hybrid)) => (r matches Ok(Ran::Hybrid)) && *final(c)
                == *old(c),
            Ok(DataHandler::Select(SelectRoute::Search)) => (r matches Ok(Ran::Search)) && *final(c)
                == *old(c),
            Ok(DataHandler::Select(SelectRoute::Plain)) => stmt matches Statement::Select(sel)
                && final(c).acknowledged() == old(c).acknowledged() && match r {
                Ok(Ran::Shown(x)) => shown_is(Ok(x), select_result(*old(c), *s, *sel)),
                Ok(_) => false,
                Err(e) => shown_is(Err(e), select_result(*old(c), *s, *sel)),
            },
            Ok(DataHandler::Update) => stmt matches Statement::Update(upd) && match update_target(
                *old(c),
                *upd,
            ) {
                Err(e) => (r matches Err(x) && x@ == e) && final(c).acknowledged()
                    == old(c).acknowledged(),
                Ok((pk, rows)) => {
                    let made = update_writes(s.eval, s.row_key, pk, rows, upd.assignments@);
                    changed_is(r) matches Some(n) && left_behind(
                        *old(c),
                        *final(c),
                        upd.table@,
                        made.0,
                        made.1,
                        rows.len(),
                        n,
                    )
                },
            },
            Ok(DataHandler::Delete) => stmt matches Statement::Delete(del) && match delete_target(
                *old(c),
                *del,
            ) {
                Err(e) => (r matches Err(x) && x@ == e) && final(c).acknowledged()
                    == old(c).acknowledged(),
                Ok(rows) => changed_is(r) matches Some(n) && left_behind(
                    *old(c),
                    *final(c),
                    del.table@,
                    delete_writes(rows),
                    None,
                    rows.len(),
                    n,
                ),
            },
        },
{
    match stmt {
        Statement::Insert(ins) => match run_insert(c, s, ins) {
            Ok(x) => Ok(Ran::Inserted(x)),
            Err(e) => Err(e),
        },
        Statement::Select(sel) => match route_select(sel) {
            Err(e) => Err(e),
            Ok(SelectRoute::Hybrid) => Ok(Ran::Hybrid),
            Ok(SelectRoute::Search) => Ok(Ran::Search),
            Ok(SelectRoute::Plain) => match run_select(&*c, s, sel) {
                Ok(x) => Ok(Ran::Shown(x)),
                Err(e) => Err(e),
            },
        },
        Statement::Update(upd) => match run_update(c, s, upd) {
            Ok(n) => Ok(Ran::Changed(n)),
            Err(e) => Err(e),
        },
        Statement::Delete(del) => match run_delete(c, del) {
            Ok(n) => Ok(Ran::Changed(n)),
            Err(e) => Err(e),
        },
        _ => Err(unsupported("non-data statement reached the data-plane executor")),
    }
}

/// Runs a `SELECT` whose output aliases are resolved with shared access: a
/// search where it has a search predicate, and a plain query where it has
/// none.
pub fn run_read<
    C: Cluster,
    F: Fn(&Expr, &Document) -> Result<Value, EngineError>,
    G: Fn(&Value, &Value) -> Rank,
    K: Fn(&Vec<&Value>) -> Vec<u8>,
    D: Fn(&Vec<&Value>) -> Vec<u8>,
    A: Fn(&Expr, &Vec<&Document>) -> Result<Value, EngineError>,
    H: Fn(&Expr, &Vec<&Document>) -> Result<bool, EngineError>,
    P: Fn(&Expr, &Document) -> Result<bool, EngineError>,
    J: Fn(&Document, &String) -> Option<Vec<u8>>,
    M: Fn(&Value, &Value) -> Option<Rank>,
    T: Fn(&Value) -> Option<i64>,
    Z: Fn(&AggFunc, &AggArg, &Vec<&Document>, AggOutcome) -> Result<Value, EngineError>,
>(c: &C, s: &Semantics<F, G, K, D, A, H, P, J, M, T, Z>, sel: &Select) -> (r: Result<Ran, EngineError>)
    requires
        sound(*s),
    ensures
        uses_search(*sel) ==> r matches Ok(Ran::Search),
        !uses_search(*sel) ==> match r {
            Ok(Ran::Shown(x)) => shown_is(Ok(x), select_result(*c, *s, *sel)),
            Ok(_) => false,
            Err(e) => shown_is(Err(e), select_result(*c, *s, *sel)),
        },
{
    if select_uses_search(sel) {
        return Ok(Ran::Search);
    }
    match run_select(c, s, sel) {
        Ok(x) => Ok(Ran::Shown(x)),
        Err(e) => Err(e),
    }
}

/// The outcome of a statement that changes rows.
pub open spec fn changed_is(r: Result<Ran, EngineError>) -> Option<Result<usize, EngineError>> {
    match r {
        Ok(Ran::Changed(n)) => Some(Ok(n)),
        Ok(_) => None,
        Err(e) => Some(Err(e)),
    }
}

} // verus!
