//! What a read answers does not hang on the access it runs with.

use vstd::prelude::*;

use crate::aggregate::AggOutcome;
use crate::ast::AggArg;
use crate::ast::AggFunc;
use crate::ast::Expr;
use crate::ast::Select;
use crate::dispatch::DataHandler;
use crate::dispatch::Handler;
use crate::dispatch::ReadHandler;
use crate::dispatch::data_handler;
use crate::dispatch::handler;
use crate::dispatch::read_handler;
use crate::dispatch::read_only;
use crate::dispatch::score_query;
use crate::error::EngineError;
use crate::error::ErrorView;
use crate::executor::Semantics;
use crate::executor::ShownView;
use crate::executor::as_rows;
use crate::executor::select_result;
use crate::highlight::OptsView;
use crate::order::Rank;
use crate::search::combined;
use crate::search::split_filter;
use crate::search::uses_search;
use crate::search_exec::Scoring;
use crate::search_exec::SearchCluster;
use crate::search_exec::search_result;
use crate::select_plan::SelectRoute;
use crate::statement::Statement;
use crate::value::Document;
use crate::value::Value;

verus! {

/// What a `SELECT` comes to with shared access.
pub open spec fn shared_answer<
    C: SearchCluster,
    F: Fn(&Expr, &Document) -> Result<Value, EngineError>,
    G: Fn(&Value, &Value) -> Rank,
    K: Fn(&Vec<&Value>) -> Vec<u8>,
    D: Fn(&Vec<&Value>) -> Vec<u8>,
    A: Fn(&Expr, &Vec<&Document>) -> Result<Value, EngineError>,
    H: Fn(&Expr, &Vec<&Document>) -> Result<bool, EngineError>,
    P: Fn(&Expr, &Document) -> Result<bool, EngineError>,
    J: Fn(&Document, &String) -> Option<Vec<u8>>,
    M: Fn(&Value, &Value) -> Option<Rank>,
    T: Fn(&Value) -> Option<i64>,
    Z: Fn(&AggFunc, &AggArg, &Vec<&Document>, AggOutcome) -> Result<Value, EngineError>,
    L: Fn(&Document, &String) -> Value,
    O: Fn(&Value, &Value) -> Rank,
    X: Fn(&Value, &Value) -> Rank,
>(c: C, s: Semantics<F, G, K, D, A, H, P, J, M, T, Z>, x: Scoring<L, O, X>, sel: Select, d: OptsView) -> Result<
    ShownView,
    ErrorView,
> {
    match read_handler(Statement::Select(sel)) {
        Err(e) => Err(e),
        Ok(ReadHandler::SearchSelect) => as_rows(search_result(c, s, x, sel, d)),
        Ok(_) => select_result(c, s, sel),
    }
}

/// What a `SELECT` that is not rank-fused comes to with exclusive access.
pub open spec fn exclusive_answer<
    C: SearchCluster,
    F: Fn(&Expr, &Document) -> Result<Value, EngineError>,
    G: Fn(&Value, &Value) -> Rank,
    K: Fn(&Vec<&Value>) -> Vec<u8>,
    D: Fn(&Vec<&Value>) -> Vec<u8>,
    A: Fn(&Expr, &Vec<&Document>) -> Result<Value, EngineError>,
    H: Fn(&Expr, &Vec<&Document>) -> Result<bool, EngineError>,
    P: Fn(&Expr, &Document) -> Result<bool, EngineError>,
    J: Fn(&Document, &String) -> Option<Vec<u8>>,
    M: Fn(&Value, &Value) -> Option<Rank>,
    T: Fn(&Value) -> Option<i64>,
    Z: Fn(&AggFunc, &AggArg, &Vec<&Document>, AggOutcome) -> Result<Value, EngineError>,
    L: Fn(&Document, &String) -> Value,
    O: Fn(&Value, &Value) -> Rank,
    X: Fn(&Value, &Value) -> Rank,
>(c: C, s: Semantics<F, G, K, D, A, H, P, J, M, T, Z>, x: Scoring<L, O, X>, sel: Select, d: OptsView) -> Result<
    ShownView,
    ErrorView,
>
    recommends
        sel.rrf is None,
{
    match data_handler(Statement::Select(sel)) {
        Err(e) => Err(e),
        Ok(DataHandler::Select(SelectRoute::Search)) => as_rows(search_result(c, s, x, sel, d)),
        Ok(_) => select_result(c, s, sel),
    }
}

/// A `SELECT` gives the same answer with shared and with exclusive access.
/// Rank fusion runs with exclusive access alone; that access also refuses a
/// `RERANK` and an `AFTER` without a search predicate, which shared access
/// passes over.
pub proof fn a_select_answers_the_same_on_both_paths<
    C: SearchCluster,
    F: Fn(&Expr, &Document) -> Result<Value, EngineError>,
    G: Fn(&Value, &Value) -> Rank,
    K: Fn(&Vec<&Value>) -> Vec<u8>,
    D: Fn(&Vec<&Value>) -> Vec<u8>,
    A: Fn(&Expr, &Vec<&Document>) -> Result<Value, EngineError>,
    H: Fn(&Expr, &Vec<&Document>) -> Result<bool, EngineError>,
    P: Fn(&Expr, &Document) -> Result<bool, EngineError>,
    J: Fn(&Document, &String) -> Option<Vec<u8>>,
    M: Fn(&Value, &Value) -> Option<Rank>,
    T: Fn(&Value) -> Option<i64>,
    Z: Fn(&AggFunc, &AggArg, &Vec<&Document>, AggOutcome) -> Result<Value, EngineError>,
    L: Fn(&Document, &String) -> Value,
    O: Fn(&Value, &Value) -> Rank,
    X: Fn(&Value, &Value) -> Rank,
>(c: C, s: Semantics<F, G, K, D, A, H, P, J, M, T, Z>, x: Scoring<L, O, X>, sel: Select, d: OptsView)
    requires
        sel.rrf is None,
        !uses_search(sel) ==> sel.rerank is None && sel.after is None,
    ensures
        handler(Statement::Select(sel)) == Ok::<Handler, ErrorView>(Handler::Data),
        shared_answer(c, s, x, sel, d) == exclusive_answer(c, s, x, sel, d),
{
}

/// The executor with exclusive access that answers like one with shared
/// access.
pub open spec fn exclusive_of(r: ReadHandler) -> Handler {
    match r {
        ReadHandler::SearchSelect => Handler::Data,
        ReadHandler::Select => Handler::Data,
        ReadHandler::Suggest => Handler::Suggest,
        ReadHandler::ExplainScore => Handler::ExplainScore,
        ReadHandler::Explain => Handler::Explain,
        ReadHandler::ShowTables => Handler::ShowTables,
        ReadHandler::ShowIndexes => Handler::ShowIndexes,
        ReadHandler::ShowStatus => Handler::ShowStatus,
        ReadHandler::ShowGrants => Handler::ShowGrants,
        ReadHandler::Describe => Handler::Describe,
    }
}

/// Whether a filter can be read and holds no search predicate.
pub open spec fn no_search(filter: Option<Expr>) -> bool {
    split_filter(filter) matches Ok(s) && combined(s.queries) is None
}

/// Every read statement goes to the same executor on both paths, or is
/// refused with the same error. The query that `EXPLAIN SCORE` explains is the
/// same on both; where there is none, both refuse it, each in its own words.
pub proof fn a_read_goes_to_the_same_executor_on_both_paths(stmt: Statement)
    requires
        read_only(stmt),
    ensures
        handler(stmt) == (match read_handler(stmt) {
            Ok(r) => Ok::<Handler, ErrorView>(exclusive_of(r)),
            Err(e) => Err(e),
        }),
        stmt matches Statement::ExplainScore { select, .. } ==> ({
            let shared = score_query(select.filter, false);
            let exclusive = score_query(select.filter, true);
            &&& shared is Ok <==> exclusive is Ok
            &&& no_search(select.filter) || shared == exclusive
        }),
{
}

} // verus!
