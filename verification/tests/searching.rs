use std::cell::RefCell;

use skaidb_engine::access::OrderRequest;
use skaidb_engine::aggregate::{eval_over_group, AggOutcome};
use skaidb_engine::ast::{
    AggArg, AggFunc, Expr, Nearest, OrderKey, Rerank, Rrf, Select, SelectItem,
};
use skaidb_engine::cluster::Cluster;
use skaidb_engine::error::EngineError;
use skaidb_engine::executor::Semantics;
use skaidb_engine::highlight::{HighlightOpts, HighlightReq};
use skaidb_engine::model::copy_value;
use skaidb_engine::order::Rank;
use skaidb_engine::projection::NameSet;
use skaidb_engine::results::ResultSet;
use skaidb_engine::search::SearchQuery;
use skaidb_engine::search_exec::{run_search_select, Hit, Scoring, SearchCluster};
use skaidb_engine::search_plan::{AggRequest, AggRow};
use skaidb_engine::value::{Document, Value};
use skaidb_engine::vector_exec::{run_hybrid_select, run_nearest_select, Fusing, VectorCluster};

type Keyed = Vec<(Vec<u8>, Document)>;

fn s(x: &str) -> String {
    x.to_string()
}

fn col(path: &str) -> Expr {
    Expr::Column(s(path))
}

fn num(n: i64) -> Expr {
    Expr::Literal(Value::Int(n))
}

fn item(expr: Expr) -> SelectItem {
    SelectItem::Expr { expr, alias: None }
}

fn func(name: &str, args: Vec<Expr>) -> Expr {
    Expr::Func { name: s(name), args }
}

fn by(expr: Expr, descending: bool) -> OrderKey {
    OrderKey { expr, descending }
}

fn select(items: Vec<SelectItem>) -> Select {
    Select {
        distinct: false,
        items,
        from: s("t"),
        from_alias: s("t"),
        joins: Vec::new(),
        filter: Some(func("match", vec![col("body"), Expr::Literal(Value::String(s("fox")))])),
        group_by: Vec::new(),
        group_top: None,
        having: None,
        order_by: Vec::new(),
        limit: None,
        offset: None,
        limit_param: None,
        offset_param: None,
        set_ops: Vec::new(),
        nearest: None,
        rrf: None,
        rerank: None,
        after: None,
    }
}

fn eval(e: &Expr, d: &Document) -> Result<Value, EngineError> {
    match e {
        Expr::Literal(v) => Ok(copy_value(v)),
        Expr::Column(p) => Ok(d.field(p).map(copy_value).unwrap_or(Value::Null)),
        Expr::Func { name, .. } if name == "score" => {
            Ok(d.field("_score").map(copy_value).unwrap_or(Value::Null))
        }
        _ => Err(EngineError::Unsupported(s("expression"))),
    }
}

fn rank(a: &Value, b: &Value) -> Rank {
    match (a, b) {
        (Value::Int(x), Value::Int(y)) if x < y => Rank::Less,
        (Value::Int(x), Value::Int(y)) if x > y => Rank::Greater,
        _ => Rank::Equal,
    }
}

fn encode(vs: &Vec<&Value>) -> Vec<u8> {
    vs.iter()
        .map(|v| match v {
            Value::Int(n) => *n as u8,
            _ => 0,
        })
        .collect()
}

fn compare(a: &Value, b: &Value) -> Option<Rank> {
    match (a, b) {
        (Value::Int(_), Value::Int(_)) => Some(rank(a, b)),
        _ => None,
    }
}

fn clock(v: &Value) -> Option<i64> {
    match v {
        Value::Int(n) => Some(*n),
        _ => None,
    }
}

fn finish(
    _: &AggFunc,
    _: &AggArg,
    _: &Vec<&Document>,
    _: AggOutcome,
) -> Result<Value, EngineError> {
    Err(EngineError::Unsupported(s("floating point")))
}

fn eval_group(e: &Expr, docs: &Vec<&Document>) -> Result<Value, EngineError> {
    eval_over_group(&eval, &encode, &compare, &clock, &finish, e, docs)
}

/// An index of rows 1, 2, ... whose bodies all match; the score of a row is
/// three for an even one and seven for an odd one.
struct Index {
    rows: i64,
    sorts: bool,
    aggregates: bool,
    limit: bool,
    asked: RefCell<Vec<String>>,
}

impl Index {
    fn new(rows: i64) -> Index {
        Index { rows, sorts: true, aggregates: false, limit: false, asked: RefCell::new(Vec::new()) }
    }

    fn note(&self, what: String) {
        self.asked.borrow_mut().push(what);
    }

    fn asked(&self) -> Vec<String> {
        self.asked.borrow().clone()
    }

    fn doc(&self, id: i64) -> Document {
        let mut d = Document::new();
        d.put_field(s("id"), Value::Int(id));
        d.put_field(s("v"), Value::Int(id % 3));
        d.put_field(s("body"), Value::String(format!("fox {id}")));
        d
    }

    fn none<T>(&self) -> Result<T, EngineError> {
        Err(EngineError::Unsupported(s("rows")))
    }
}

impl Cluster for Index {
    fn primary_key(&self, _: &str) -> Result<Vec<String>, EngineError> {
        Ok(vec![s("id")])
    }

    fn matching_rows(&self, _: &str, _: &Option<Expr>) -> Result<Keyed, EngineError> {
        self.none()
    }

    fn matching_rows_ordered(
        &self,
        _: &str,
        _: &Option<Expr>,
        _: Option<OrderRequest<'_>>,
        _: Option<u64>,
    ) -> Result<(Keyed, bool), EngineError> {
        self.none()
    }

    fn matching_rows_projected(
        &self,
        _: &str,
        _: &Option<Expr>,
        _: &NameSet,
    ) -> Result<Keyed, EngineError> {
        self.none()
    }

    fn count_rows(&self, _: &str) -> Result<Option<usize>, EngineError> {
        self.none()
    }

    fn count_filtered(&self, _: &str, _: &Option<Expr>) -> Result<Option<usize>, EngineError> {
        self.none()
    }

    fn count_matching(&self, _: &str, _: &Option<Expr>) -> Result<Option<usize>, EngineError> {
        self.none()
    }

    fn distinct_values(
        &self,
        _: &str,
        _: &str,
        _: &Option<Expr>,
    ) -> Result<Option<Vec<Value>>, EngineError> {
        self.none()
    }

    fn ts_series_key(&self, _: &str) -> Result<Option<Vec<String>>, EngineError> {
        Ok(None)
    }

    fn put(&mut self, _: &str, _: &Vec<u8>, _: &Document) -> Result<(), EngineError> {
        self.none()
    }

    fn put_batch(&mut self, _: &str, _: &Keyed) -> Result<(), EngineError> {
        self.none()
    }

    fn delete(&mut self, _: &str, _: &Vec<u8>, _: &Document) -> Result<(), EngineError> {
        self.none()
    }
}

impl SearchCluster for Index {
    fn search(
        &mut self,
        table: &str,
        query: &SearchQuery,
        k: Option<u64>,
        residual: &Vec<&Expr>,
        highlights: &Vec<HighlightReq>,
    ) -> Result<Vec<Hit>, EngineError> {
        assert_eq!(table, "t");
        assert!(matches!(query, SearchQuery::Match { text, .. } if text == "fox"));
        assert!(residual.is_empty() && highlights.is_empty());
        self.note(format!("search {k:?}"));
        if self.limit {
            return Err(EngineError::ResourceLimit(s("too many")));
        }
        // The worst key first among equal scores: the order of ties is the
        // executor's to settle.
        let mut ids: Vec<i64> = (1..=self.rows).rev().collect();
        ids.sort_by_key(|id| id % 2 == 0);
        let want = k.unwrap_or(u64::MAX).min(self.rows as u64) as usize;
        let score = |id: i64| if id % 2 == 0 { 3 } else { 7 };
        Ok(ids[..want].iter().map(|id| (vec![*id as u8], self.doc(*id), Value::Int(score(*id)))).collect())
    }

    fn search_sorted(
        &mut self,
        _: &str,
        _: &SearchQuery,
        col: &String,
        descending: bool,
        k: u64,
        _: &Vec<&Expr>,
        _: &Vec<HighlightReq>,
    ) -> Result<Option<Keyed>, EngineError> {
        self.note(format!("sorted {col} {descending} {k}"));
        if !self.sorts {
            return Ok(None);
        }
        let mut ids: Vec<i64> = (1..=self.rows).rev().collect();
        ids.sort_by_key(|id| id % 3);
        if descending {
            ids.reverse();
        }
        let want = k.min(self.rows as u64) as usize;
        Ok(Some(ids[..want].iter().map(|id| (vec![*id as u8], self.doc(*id))).collect()))
    }

    fn search_aggregate(
        &mut self,
        _: &str,
        _: &SearchQuery,
        agg: &AggRequest,
    ) -> Result<Option<Vec<AggRow>>, EngineError> {
        self.note(format!("aggregate {}", agg.metrics.len()));
        if !self.aggregates {
            return Ok(None);
        }
        let row = |key: i64, n: i64| AggRow { key: Value::Int(key), metrics: vec![Value::Int(n)] };
        Ok(Some(vec![row(0, 10), row(1, 11), row(2, 12)]))
    }

    fn rerank(
        &self,
        model: &str,
        query: &str,
        texts: &Vec<String>,
    ) -> Result<Vec<(i64, Value)>, EngineError> {
        self.note(format!("rerank {model} {query} {}", texts.join("/")));
        Ok((0..texts.len() as i64).map(|i| (i / 2, Value::Int(100 + i / 2))).collect())
    }
}

impl VectorCluster for Index {
    fn embed_query(&self, _: &str, path: &str, text: &str) -> Result<Vec<u32>, EngineError> {
        self.note(format!("embed {path} {text}"));
        Ok(vec![text.len() as u32])
    }

    fn vector_search(
        &self,
        _: &str,
        path: &str,
        query: &Vec<u32>,
        k: u64,
        filter: &Vec<&Expr>,
    ) -> Result<Vec<Hit>, EngineError> {
        self.note(format!("near {path} {query:?} {k} {}", filter.len()));
        let want = k.min(self.rows as u64) as i64;
        Ok((1..=want).map(|id| (vec![id as u8], self.doc(id), Value::Int(10 * id))).collect())
    }
}

fn near(query: Value, k: i64) -> Nearest {
    Nearest { path: s("vec"), query: Expr::Literal(query), k: num(k) }
}

fn narrow(v: &Value) -> u32 {
    match v {
        Value::Int(n) => *n as u32,
        _ => 0,
    }
}

/// Adds up reciprocal ranks, in parts of a thousand.
fn reciprocal(constant: u32, ranks: &Vec<usize>) -> (i64, Value) {
    let score: i64 = ranks.iter().map(|r| 1000 / (constant as i64 + *r as i64)).sum();
    (-score, Value::Int(score))
}

fn fused(index: &mut Index, sel: &Select) -> Result<ResultSet, EngineError> {
    let semantics = Semantics {
        eval,
        rank,
        group_key: encode,
        row_key: encode,
        group_eval: eval_group,
        group_decide: |_: &Expr, _: &Vec<&Document>| Ok(true),
        decide: |_: &Expr, _: &Document| Ok(true),
        join_key: |_: &Document, _: &String| None,
        compare,
        clock,
        finish,
    };
    let scoring = Scoring {
        at: |d: &Document, c: &String| d.field(c).map(copy_value).unwrap_or(Value::Null),
        order: rank,
        against: rank,
    };
    let fusing = Fusing { narrow, fuse: reciprocal };
    if sel.rrf.is_some() {
        run_hybrid_select(index, &semantics, &scoring, &fusing, sel)
    } else {
        let clause = sel.nearest.as_ref().unwrap();
        run_nearest_select(index, &semantics, &fusing, sel, clause)
    }
}

fn searched(index: &mut Index, sel: &Select) -> Result<ResultSet, EngineError> {
    let semantics = Semantics {
        eval,
        rank,
        group_key: encode,
        row_key: encode,
        group_eval: eval_group,
        group_decide: |_: &Expr, _: &Vec<&Document>| Ok(true),
        decide: |_: &Expr, _: &Document| Ok(true),
        join_key: |_: &Document, _: &String| None,
        compare,
        clock,
        finish,
    };
    let scoring = Scoring {
        at: |d: &Document, c: &String| d.field(c).map(copy_value).unwrap_or(Value::Null),
        order: rank,
        against: rank,
    };
    let opts = HighlightOpts {
        max_chars: 100,
        pre_tag: s("<"),
        post_tag: s(">"),
        no_match_size: 0,
        fragments: 1,
    };
    run_search_select(index, &semantics, &scoring, sel, &opts)
}

fn rows(rs: Result<ResultSet, EngineError>) -> Vec<String> {
    rs.unwrap()
        .rows
        .iter()
        .map(|r| {
            r.iter()
                .map(|v| match v {
                    Value::Int(n) => format!("{n}"),
                    Value::Null => s("null"),
                    _ => s("?"),
                })
                .collect::<Vec<_>>()
                .join(",")
        })
        .collect()
}

fn page(order: OrderKey, cursor: (i64, i64), limit: u64) -> Select {
    let mut sel = select(vec![item(col("id")), item(func("score", Vec::new()))]);
    sel.order_by.push(order);
    sel.after = Some(vec![num(cursor.0), num(cursor.1)]);
    sel.limit = Some(limit);
    sel
}

#[test]
fn ranked_hits_come_by_score_then_key() {
    let mut index = Index::new(5);
    let mut sel = select(vec![item(col("id")), item(func("score", Vec::new()))]);
    sel.order_by.push(by(func("score", Vec::new()), true));
    sel.limit = Some(3);
    sel.offset = Some(1);
    assert_eq!(rows(searched(&mut index, &sel)), vec!["3,7", "5,7", "4,3"]);
    assert_eq!(index.asked(), vec!["search Some(4)"]);
    // Without an order the hits come as they are.
    let plain = select(vec![item(col("id"))]);
    assert_eq!(rows(searched(&mut index, &plain)), vec!["5", "3", "1", "4", "2"]);
}

#[test]
fn sorted_hits_come_from_the_index_where_it_can() {
    let mut index = Index::new(5);
    let mut sel = select(vec![item(col("id"))]);
    sel.order_by.push(by(col("v"), false));
    sel.limit = Some(3);
    assert_eq!(rows(searched(&mut index, &sel)), vec!["3", "1", "4"]);
    assert_eq!(index.asked(), vec!["sorted v false 3"]);
    let mut index = Index::new(5);
    index.sorts = false;
    assert_eq!(rows(searched(&mut index, &sel)), vec!["3", "1", "4"]);
    assert_eq!(index.asked(), vec!["sorted v false 3", "search None"]);
    sel.limit = None;
    let mut index = Index::new(5);
    assert_eq!(rows(searched(&mut index, &sel)), vec!["3", "1", "4", "2", "5"]);
    assert_eq!(index.asked(), vec!["search None"]);
}

#[test]
fn keyset_pages_resume_behind_their_cursor() {
    let mut index = Index::new(6);
    let score = || by(func("score", Vec::new()), true);
    assert_eq!(rows(searched(&mut index, &page(score(), (9, 0), 2))), vec!["1,7", "3,7"]);
    assert_eq!(rows(searched(&mut index, &page(score(), (7, 3), 2))), vec!["5,7", "2,3"]);
    assert_eq!(rows(searched(&mut index, &page(score(), (3, 2), 2))), vec!["4,3", "6,3"]);
    assert!(rows(searched(&mut index, &page(score(), (3, 6), 2))).is_empty());
    assert_eq!(index.asked()[0], "search Some(64)");
    let column = || by(col("v"), false);
    assert_eq!(rows(searched(&mut index, &page(column(), (0, 3), 3))), vec!["6,null", "1,null", "4,null"]);
    index.sorts = false;
    assert_eq!(rows(searched(&mut index, &page(column(), (1, 4), 3))), vec!["2,null", "5,null"]);
}

#[test]
fn a_deep_page_fetches_deeper() {
    let mut index = Index::new(200);
    let deep = page(by(func("score", Vec::new()), true), (3, 150), 40);
    let got = rows(searched(&mut index, &deep));
    assert_eq!((got.len(), got[0].as_str()), (25, "152,3"));
    assert_eq!(index.asked(), vec!["search Some(80)", "search Some(160)", "search Some(320)"]);
    let mut sel = page(by(col("v"), true), (9, 1), 10);
    sel.offset = Some(1);
    assert!(matches!(searched(&mut index, &sel), Err(EngineError::Unsupported(_))));
    let mut sel = page(by(col("v"), true), (9, 1), 10);
    sel.after = Some(vec![num(1), Expr::Literal(Value::Null)]);
    assert!(matches!(
        searched(&mut index, &sel),
        Err(EngineError::Type(m)) if m == "AFTER primary-key value must not be NULL"
    ));
}

#[test]
fn candidates_are_reranked() {
    let mut index = Index::new(5);
    let mut sel = select(vec![item(col("id")), item(func("score", Vec::new()))]);
    sel.rerank = Some(Rerank { top: 3, query: None, column: None, model: Some(s("m")) });
    // The hits 5, 3, 1 score 100, 100 and 101; ties keep their order.
    assert_eq!(rows(searched(&mut index, &sel)), vec!["1,101", "5,100", "3,100"]);
    assert_eq!(index.asked(), vec!["search Some(3)", "rerank m fox fox 5/fox 3/fox 1"]);
}

#[test]
fn grouped_searches_ask_the_index_first() {
    let grouped = || {
        let count = Expr::Aggregate { func: AggFunc::Count, arg: AggArg::Star };
        let mut sel = select(vec![item(col("v")), item(count)]);
        sel.group_by.push(col("v"));
        sel.limit = Some(2);
        sel
    };
    let mut index = Index::new(5);
    index.aggregates = true;
    assert_eq!(rows(searched(&mut index, &grouped())), vec!["0,10", "1,11"]);
    assert_eq!(index.asked(), vec!["aggregate 1"]);
    let mut index = Index::new(5);
    assert_eq!(rows(searched(&mut index, &grouped())), vec!["2,2", "0,1"]);
    assert_eq!(index.asked(), vec!["aggregate 1", "search None"]);
    index.limit = true;
    assert!(matches!(
        searched(&mut index, &grouped()),
        Err(EngineError::ResourceLimit(m)) if m.starts_with("too many [grouped search fallback: ")
    ));
}

#[test]
fn neighbours_come_with_their_distances() {
    let mut index = Index::new(5);
    let mut sel = select(vec![item(col("id")), item(col("_distance"))]);
    sel.nearest = Some(near(Value::Array(vec![Value::Int(4), Value::Int(2)]), 2));
    assert_eq!(rows(fused(&mut index, &sel)), vec!["1,10", "2,20"]);
    assert_eq!(index.asked(), vec!["near vec [4, 2] 2 1"]);
}

#[test]
fn a_text_is_embedded_before_it_is_searched() {
    let mut index = Index::new(5);
    let mut sel = select(vec![item(col("id"))]);
    sel.nearest = Some(near(Value::String(s("abc")), 1));
    assert_eq!(rows(fused(&mut index, &sel)), vec!["1"]);
    assert_eq!(index.asked(), vec!["embed vec abc", "near vec [3] 1 1"]);
}

#[test]
fn a_nearest_clause_is_checked() {
    let mut sel = select(vec![item(col("id"))]);
    sel.nearest = Some(near(Value::Array(vec![Value::Int(4)]), 0));
    let refused = fused(&mut Index::new(5), &sel);
    assert!(matches!(refused, Err(EngineError::Type(m)) if m == "NEAREST k must be a positive integer"));
    sel.nearest = Some(near(Value::Array(vec![Value::Bool(true)]), 1));
    let refused = fused(&mut Index::new(5), &sel);
    assert!(matches!(refused, Err(EngineError::Type(m)) if m == "query vector must be a numeric array"));
    sel.nearest = Some(near(Value::Array(vec![Value::Int(4)]), 1));
    sel.order_by.push(by(col("id"), false));
    assert!(matches!(fused(&mut Index::new(5), &sel), Err(EngineError::Unsupported(_))));
}

#[test]
fn fused_ranks_order_the_rows_of_both_legs() {
    let mut index = Index::new(5);
    let mut sel = select(vec![item(col("id")), item(col("_rrf_score"))]);
    sel.nearest = Some(near(Value::Array(vec![Value::Int(4)]), 3));
    sel.rrf = Some(Rrf { constant: 9 });
    // The text leg finds 5, 3, 1; the vector leg 1, 2, 3.
    assert_eq!(rows(fused(&mut index, &sel)), vec!["1,183", "3,173", "5,100", "2,90"]);
    assert_eq!(index.asked(), vec!["search Some(3)", "near vec [4] 3 0"]);
}

#[test]
fn only_the_first_fused_rows_are_reranked() {
    let mut index = Index::new(5);
    let mut sel = select(vec![item(col("id")), item(func("score", Vec::new()))]);
    sel.nearest = Some(near(Value::Array(vec![Value::Int(4)]), 3));
    sel.rrf = Some(Rrf { constant: 9 });
    sel.rerank = Some(Rerank { top: 3, query: None, column: None, model: Some(s("m")) });
    assert_eq!(rows(fused(&mut index, &sel)), vec!["5,101", "1,100", "3,100"]);
    assert_eq!(
        index.asked(),
        vec!["search Some(3)", "near vec [4] 3 0", "rerank m fox fox 1/fox 3/fox 5"]
    );
}

#[test]
fn fusing_needs_both_legs() {
    let mut sel = select(vec![item(col("id"))]);
    sel.rrf = Some(Rrf { constant: 9 });
    let refused = fused(&mut Index::new(5), &sel);
    assert!(matches!(
        refused,
        Err(EngineError::Unsupported(m)) if m == "RANK BY RRF requires a NEAREST (vector) clause"
    ));
    sel.nearest = Some(near(Value::Array(vec![Value::Int(4)]), 3));
    sel.filter = None;
    assert!(matches!(fused(&mut Index::new(5), &sel), Err(EngineError::Type(_))));
}
