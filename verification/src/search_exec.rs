//! Full-text queries carried out against a cluster that can search.

use vstd::prelude::*;

use crate::ast::AggFunc;
use crate::ast::AggArg;
use crate::aggregate::AggOutcome;
use crate::ast::Expr;
use crate::ast::Rerank;
use crate::ast::Select;
use crate::cluster::Cluster;
use crate::error::EngineError;
use crate::error::ErrorView;
use crate::execute::encode_tuple;
use crate::execute::encoding;
use crate::execute::evaluate;
use crate::execute::evaluated;
use crate::execute::row_view;
use crate::execute::row_wf;
use crate::executor::result_is;
use crate::executor::show;
use crate::executor::shown;
use crate::executor::sound;
use crate::executor::Semantics;
use crate::highlight::req_views;
use crate::highlight::HighlightOpts;
use crate::highlight::HighlightReq;
use crate::highlight::OptsView;
use crate::highlight::ReqView;
use crate::model::copy_document;
use crate::model::copy_value;
use crate::model::doc_view;
use crate::model::doc_wf;
use crate::model::value_view;
use crate::model::value_wf;
use crate::model::Fields;
use crate::model::ValueView;
use crate::grouping::all_docs;
use crate::order::as_places;
use crate::order::first_few;
use crate::order::is_ranking;
use crate::order::lemma_slot_for;
use crate::order::places;
use crate::order::slot_for;
use crate::order::stable_sorted;
use crate::order::Rank;
use crate::order::TopRow;
use crate::paging::in_page_order;
use crate::paging::page_behind;
use crate::paging::settle;
use crate::paging::settled;
use crate::paging::sort_page;
use crate::paging::take_page;
use crate::paging::Settled;
use crate::paging::SettledView;
use crate::projection::NameSet;
use crate::plan::tuple;
use crate::results::docs_wf;
use crate::results::rows_view;
use crate::results::rows_wf;
use crate::results::ResultSet;
use crate::results::ResultView;
use crate::search::collect_search_fields;
use crate::search::fields_into;
use crate::search::query_view;
use crate::search::QueryView;
use crate::search::SearchQuery;
use crate::search_plan::blank;
use crate::search_plan::after_cursor;
use crate::search_plan::after_plan;
use crate::search_plan::candidate_text;
use crate::search_plan::first_after_fetch;
use crate::search_plan::first_depth;
use crate::search_plan::agg_cell;
use crate::search_plan::finish_agg_pushdown;
use crate::search_plan::group_view;
use crate::search_plan::grouped_fallback_error;
use crate::search_plan::grouped_fallback_text;
use crate::search_plan::index_aggregate;
use crate::search_plan::map_search_aggregate;
use crate::search_plan::metric_views;
use crate::search_plan::outputs_read_requested_metrics;
use crate::search_plan::own_strings;
use crate::search_plan::parse_after_cursor;
use crate::search_plan::plan_search_after;
use crate::search_plan::plan_search_select;
use crate::search_plan::plan_view;
use crate::search_plan::rerank_doc_text;
use crate::search_plan::rerank_order;
use crate::search_plan::rerank_own_fields;
use crate::search_plan::rerank_query;
use crate::search_plan::rerank_query_text;
use crate::search_plan::scored_better;
use crate::search_plan::search_plan;
use crate::search_plan::too_deep_error;
use crate::search_plan::AfterOrder;
use crate::search_plan::AfterOrderView;
use crate::search_plan::AggGroupView;
use crate::search_plan::AggOut;
use crate::search_plan::AggRequest;
use crate::search_plan::AggRow;
use crate::search_plan::MetricView;
use crate::search_plan::SearchPlan;
use crate::search_plan::SearchPlanView;
use crate::search_plan::SearchStrategy;
use crate::search_plan::AFTER_FETCH_MAX;
use crate::select_plan::output_columns;
use crate::select_plan::output_names;
use crate::text::views;
use crate::value::Document;
use crate::value::Value;

verus! {

/// A search hit: the row's key, its document, and its score.
pub type Hit = (Vec<u8>, Document, Value);

/// What is asked of a search: the query, how many of the best hits, and the
/// conjuncts and the highlights that go with it.
pub struct Ask {
    pub query: QueryView,
    pub k: Option<u64>,
    pub residual: Seq<Expr>,
    pub highlights: Seq<ReqView>,
}

/// Whether every hit's document and score are in order.
pub open spec fn hits_wf(hits: Seq<Hit>) -> bool {
    forall|i: int|
        0 <= i < hits.len() ==> doc_wf((#[trigger] hits[i]).1) && value_wf(hits[i].2)
}

/// Whether two states of a cluster answer searches alike and have acknowledged
/// the same writes.
pub open spec fn answers_alike<C: SearchCluster>(a: C, b: C) -> bool {
    &&& b.acknowledged() == a.acknowledged()
    &&& forall|table: Seq<char>| #[trigger] b.key_columns(table) == a.key_columns(table)
    &&& forall|table: Seq<char>, ask: Ask| #[trigger]
        b.hits_of(table, ask) == a.hits_of(table, ask)
    &&& forall|table: Seq<char>, col: Seq<char>, descending: bool, ask: Ask| #[trigger]
        b.sorted_hits_of(table, col, descending, ask) == a.sorted_hits_of(
            table,
            col,
            descending,
            ask,
        )
    &&& forall|model: Seq<char>, query: Seq<char>, texts: Seq<Seq<char>>| #[trigger]
        b.scores_of(model, query, texts) == a.scores_of(model, query, texts)
}

/// A cluster whose tables can be searched. A search takes in the writes that
/// are still to be indexed before it answers, so that it sees every row that
/// was acknowledged; what it answers does not depend on whether one was made
/// before.
pub trait SearchCluster: Cluster {
    /// The hits of a search, best first where a number of them is asked for.
    open spec fn hits_of(&self, table: Seq<char>, ask: Ask) -> Result<Seq<Hit>, EngineError> {
        Ok(Seq::empty())
    }

    /// The first matches in the order of a column, where the index can serve
    /// it exactly.
    open spec fn sorted_hits_of(
        &self,
        table: Seq<char>,
        col: Seq<char>,
        descending: bool,
        ask: Ask,
    ) -> Result<Option<Seq<(Vec<u8>, Document)>>, EngineError> {
        Ok(None)
    }

    /// The rows of an aggregation inside the index, where it can serve it
    /// exactly.
    open spec fn aggregates_of(
        &self,
        table: Seq<char>,
        query: QueryView,
        group: Option<AggGroupView>,
        metrics: Seq<MetricView>,
    ) -> Result<Option<Seq<AggRow>>, EngineError> {
        Ok(None)
    }

    /// What a reranker makes of texts: for each the rank of its score, higher
    /// for better, and the score.
    open spec fn scores_of(
        &self,
        model: Seq<char>,
        query: Seq<char>,
        texts: Seq<Seq<char>>,
    ) -> Result<Seq<(i64, Value)>, EngineError> {
        Ok(Seq::empty())
    }

    /// Searches `table`.
    fn search(
        &mut self,
        table: &str,
        query: &SearchQuery,
        k: Option<u64>,
        residual: &Vec<&Expr>,
        highlights: &Vec<HighlightReq>,
    ) -> (r: Result<Vec<Hit>, EngineError>)
        ensures
            final(self).acknowledged() == old(self).acknowledged(),
            forall|t: Seq<char>| #[trigger]
                final(self).key_columns(t) == old(self).key_columns(t),
            forall|t: Seq<char>, a: Ask| #[trigger]
                final(self).hits_of(t, a) == old(self).hits_of(t, a),
            forall|t: Seq<char>, c: Seq<char>, d: bool, a: Ask| #[trigger]
                final(self).sorted_hits_of(t, c, d, a) == old(self).sorted_hits_of(t, c, d, a),
            forall|m: Seq<char>, q: Seq<char>, t: Seq<Seq<char>>| #[trigger]
                final(self).scores_of(m, q, t) == old(self).scores_of(m, q, t),
            match r {
                Ok(hits) => old(self).hits_of(
                    table@,
                    asked(*query, k, residual@, highlights@),
                ) == Ok::<Seq<Hit>, EngineError>(hits@) && hits_wf(hits@),
                Err(e) => old(self).hits_of(table@, asked(*query, k, residual@, highlights@))
                    == Err::<Seq<Hit>, EngineError>(e),
            },
    ;

    /// The first `k` matches in the order of a column.
    fn search_sorted(
        &mut self,
        table: &str,
        query: &SearchQuery,
        col: &String,
        descending: bool,
        k: u64,
        residual: &Vec<&Expr>,
        highlights: &Vec<HighlightReq>,
    ) -> (r: Result<Option<Vec<(Vec<u8>, Document)>>, EngineError>)
        ensures
            final(self).acknowledged() == old(self).acknowledged(),
            forall|t: Seq<char>| #[trigger]
                final(self).key_columns(t) == old(self).key_columns(t),
            forall|t: Seq<char>, a: Ask| #[trigger]
                final(self).hits_of(t, a) == old(self).hits_of(t, a),
            forall|t: Seq<char>, c: Seq<char>, d: bool, a: Ask| #[trigger]
                final(self).sorted_hits_of(t, c, d, a) == old(self).sorted_hits_of(t, c, d, a),
            forall|m: Seq<char>, q: Seq<char>, t: Seq<Seq<char>>| #[trigger]
                final(self).scores_of(m, q, t) == old(self).scores_of(m, q, t),
            match r {
                Ok(None) => old(self).sorted_hits_of(
                    table@,
                    col@,
                    descending,
                    asked(*query, Some(k), residual@, highlights@),
                ) == Ok::<Option<Seq<(Vec<u8>, Document)>>, EngineError>(None),
                Ok(Some(rows)) => old(self).sorted_hits_of(
                    table@,
                    col@,
                    descending,
                    asked(*query, Some(k), residual@, highlights@),
                ) == Ok::<Option<Seq<(Vec<u8>, Document)>>, EngineError>(Some(rows@))
                    && crate::cluster::keyed_wf(rows@),
                Err(e) => old(self).sorted_hits_of(
                    table@,
                    col@,
                    descending,
                    asked(*query, Some(k), residual@, highlights@),
                ) == Err::<Option<Seq<(Vec<u8>, Document)>>, EngineError>(e),
            },
    ;

    /// Aggregates the matches of a search inside the index.
    fn search_aggregate(&mut self, table: &str, query: &SearchQuery, agg: &AggRequest) -> (r:
        Result<Option<Vec<AggRow>>, EngineError>)
        ensures
            final(self).acknowledged() == old(self).acknowledged(),
            forall|t: Seq<char>| #[trigger]
                final(self).key_columns(t) == old(self).key_columns(t),
            forall|t: Seq<char>, a: Ask| #[trigger]
                final(self).hits_of(t, a) == old(self).hits_of(t, a),
            forall|t: Seq<char>, c: Seq<char>, d: bool, a: Ask| #[trigger]
                final(self).sorted_hits_of(t, c, d, a) == old(self).sorted_hits_of(t, c, d, a),
            forall|m: Seq<char>, q: Seq<char>, t: Seq<Seq<char>>| #[trigger]
                final(self).scores_of(m, q, t) == old(self).scores_of(m, q, t),
            match r {
                Ok(None) => old(self).aggregates_of(
                    table@,
                    query_view(*query),
                    group_view(agg.group_by),
                    metric_views(agg.metrics@),
                ) == Ok::<Option<Seq<AggRow>>, EngineError>(None),
                Ok(Some(rows)) => old(self).aggregates_of(
                    table@,
                    query_view(*query),
                    group_view(agg.group_by),
                    metric_views(agg.metrics@),
                ) == Ok::<Option<Seq<AggRow>>, EngineError>(Some(rows@)) && agg_rows_wf(
                    rows@,
                    agg.metrics@.len(),
                ),
                Err(e) => old(self).aggregates_of(
                    table@,
                    query_view(*query),
                    group_view(agg.group_by),
                    metric_views(agg.metrics@),
                ) == Err::<Option<Seq<AggRow>>, EngineError>(e),
            },
    ;

    /// Scores texts against a query, one score for each.
    fn rerank(&self, model: &str, query: &str, texts: &Vec<String>) -> (r: Result<
        Vec<(i64, Value)>,
        EngineError,
    >)
        ensures
            match r {
                Ok(scores) => self.scores_of(model@, query@, views(texts@)) == Ok::<
                    Seq<(i64, Value)>,
                    EngineError,
                >(scores@) && scores@.len() == texts@.len() && (forall|i: int|
                    0 <= i < scores@.len() ==> value_wf((#[trigger] scores@[i]).1)),
                Err(e) => self.scores_of(model@, query@, views(texts@)) == Err::<
                    Seq<(i64, Value)>,
                    EngineError,
                >(e),
            },
    ;
}

/// Whether aggregated rows hold a value for each metric, their values in
/// order.
pub open spec fn agg_rows_wf(rows: Seq<AggRow>, metrics: nat) -> bool {
    forall|i: int|
        0 <= i < rows.len() ==> (#[trigger] rows[i]).metrics@.len() == metrics && value_wf(
            rows[i].key,
        ) && row_wf(rows[i].metrics@)
}

/// What is asked of a search.
pub open spec fn asked(
    query: SearchQuery,
    k: Option<u64>,
    residual: Seq<&Expr>,
    highlights: Seq<HighlightReq>,
) -> Ask {
    Ask {
        query: query_view(query),
        k,
        residual: crate::constraints::pointees(residual),
        highlights: req_views(highlights),
    }
}

/// How hits are ordered: the value of a document at a column, the order of
/// scores, and how a score stands against a cursor's.
pub struct Scoring<L, O, X> {
    pub at: L,
    pub order: O,
    pub against: X,
}

/// Whether a reader gave a value for a document at a column.
pub open spec fn reads<L: Fn(&Document, &String) -> Value>(
    l: L,
    doc: Document,
    col: Seq<char>,
    v: Value,
) -> bool {
    exists|c: String| c@ == col && #[trigger] call_ensures(l, (&doc, &c), v)
}

/// The value of a document at a column, `NULL` where it has none.
pub open spec fn value_at<L: Fn(&Document, &String) -> Value>(
    l: L,
    doc: Document,
    col: Seq<char>,
) -> Value {
    choose|v: Value| reads(l, doc, col, v)
}

/// Whether each of them always answers the same.
pub open spec fn scores_soundly<
    L: Fn(&Document, &String) -> Value,
    O: Fn(&Value, &Value) -> Rank,
    X: Fn(&Value, &Value) -> Rank,
>(x: Scoring<L, O, X>) -> bool {
    &&& is_ranking(x.order)
    &&& is_ranking(x.against)
    &&& forall|d: &Document, c: &String| call_requires(x.at, (d, c))
    &&& forall|d: &Document, c: &String, e: &String, a: Value, b: Value|
        #![trigger call_ensures(x.at, (d, c), a), call_ensures(x.at, (d, e), b)]
        c@ == e@ && call_ensures(x.at, (d, c), a) && call_ensures(x.at, (d, e), b) ==> a == b
}

/// Reads the value of a document at a column.
fn read_at<
    L: Fn(&Document, &String) -> Value,
    O: Fn(&Value, &Value) -> Rank,
    X: Fn(&Value, &Value) -> Rank,
>(x: &Scoring<L, O, X>, doc: &Document, col: &String) -> (r: Value)
    requires
        scores_soundly(*x),
    ensures
        r == value_at(x.at, *doc, col@),
{
    let at = &x.at;
    let v = at(doc, col);
    proof {
        assert(call_ensures(x.at, (doc, col), v));
        assert(reads(x.at, *doc, col@, v));
        let w = value_at(x.at, *doc, col@);
        assert(reads(x.at, *doc, col@, w));
        let c = choose|c: String| c@ == col@ && #[trigger] call_ensures(x.at, (doc, &c), w);
        assert(call_ensures(x.at, (doc, &c), w));
    }
    v
}

/// Hits by their scores.
pub open spec fn by_score(hits: Seq<Hit>) -> Seq<TopRow<Document>> {
    hits.map_values(|h: Hit| (h.2, h.0, h.1))
}

fn rows_by_score(hits: Vec<Hit>) -> (r: Vec<TopRow<Document>>)
    ensures
        r@ == by_score(hits@),
{
    let ghost all = hits@;
    let mut out: Vec<TopRow<Document>> = Vec::new();
    for hit in it: hits
        invariant
            it.seq() == all,
            out@.len() == it.index(),
            forall|i: int|
                0 <= i < out@.len() ==> #[trigger] out@[i] == (all[i].2, all[i].0, all[i].1),
    {
        let (key, doc, score) = hit;
        out.push((score, key, doc));
    }
    proof {
        assert(out@ =~= by_score(all));
    }
    out
}

/// Hits without their scores.
pub open spec fn unscored(hits: Seq<Hit>) -> Seq<(Vec<u8>, Document)> {
    hits.map_values(|h: Hit| (h.0, h.1))
}

fn drop_scores(hits: Vec<Hit>) -> (r: Vec<(Vec<u8>, Document)>)
    ensures
        r@ == unscored(hits@),
{
    let ghost all = hits@;
    let mut out: Vec<(Vec<u8>, Document)> = Vec::new();
    for hit in it: hits
        invariant
            it.seq() == all,
            out@.len() == it.index(),
            forall|i: int| 0 <= i < out@.len() ==> #[trigger] out@[i] == (all[i].0, all[i].1),
    {
        let (key, doc, _) = hit;
        out.push((key, doc));
    }
    proof {
        assert(out@ =~= unscored(all));
    }
    out
}

/// Rows by their values at a column.
pub open spec fn by_column<L: Fn(&Document, &String) -> Value>(
    l: L,
    col: Seq<char>,
    rows: Seq<(Vec<u8>, Document)>,
) -> Seq<TopRow<Document>> {
    rows.map_values(|r: (Vec<u8>, Document)| (value_at(l, r.1, col), r.0, r.1))
}

fn rows_by_column<
    L: Fn(&Document, &String) -> Value,
    O: Fn(&Value, &Value) -> Rank,
    X: Fn(&Value, &Value) -> Rank,
>(x: &Scoring<L, O, X>, col: &String, rows: Vec<(Vec<u8>, Document)>) -> (r: Vec<
    TopRow<Document>,
>)
    requires
        scores_soundly(*x),
    ensures
        r@ == by_column(x.at, col@, rows@),
{
    let ghost all = rows@;
    let mut out: Vec<TopRow<Document>> = Vec::new();
    for row in it: rows
        invariant
            it.seq() == all,
            scores_soundly(*x),
            out@.len() == it.index(),
            forall|i: int|
                0 <= i < out@.len() ==> #[trigger] out@[i] == (
                    value_at(x.at, all[i].1, col@),
                    all[i].0,
                    all[i].1,
                ),
    {
        let (key, doc) = row;
        let value = read_at(x, &doc, col);
        out.push((value, key, doc));
    }
    proof {
        assert(out@ =~= by_column(x.at, col@, all));
    }
    out
}

/// What rows hold.
pub open spec fn plain_fields(rows: Seq<TopRow<Document>>) -> Seq<Fields> {
    rows.map_values(|r: TopRow<Document>| doc_view(r.2))
}

/// What rows hold, each with its sort value as its score.
pub open spec fn scored_fields(rows: Seq<TopRow<Document>>) -> Seq<Fields> {
    rows.map_values(|r: TopRow<Document>| doc_view(r.2).insert("_score"@, value_view(r.0)))
}

/// Whether every row's document is in order.
pub open spec fn page_wf(rows: Seq<TopRow<Document>>) -> bool {
    forall|i: int| 0 <= i < rows.len() ==> doc_wf((#[trigger] rows[i]).2)
}

/// Whether every row's sort value is in order.
pub open spec fn scores_wf(rows: Seq<TopRow<Document>>) -> bool {
    forall|i: int| 0 <= i < rows.len() ==> value_wf((#[trigger] rows[i]).0)
}

proof fn lemma_sorted_from<T>(s: Seq<T>, lt: spec_fn(T, T) -> bool, i: int)
    requires
        0 <= i < stable_sorted(s, lt).len(),
    ensures
        s.contains(stable_sorted(s, lt)[i]),
    decreases s.len(),
{
    if s.len() > 0 {
        let t = stable_sorted(s.drop_last(), lt);
        lemma_slot_for(t, s.last(), lt);
        let p = slot_for(t, s.last(), lt);
        if i < p {
            lemma_sorted_from(s.drop_last(), lt, i);
            let j = choose|j: int|
                0 <= j < s.drop_last().len() && s.drop_last()[j] == t[i];
            assert(s[j] == t[i]);
        } else if i > p {
            lemma_sorted_from(s.drop_last(), lt, i - 1);
            let j = choose|j: int|
                0 <= j < s.drop_last().len() && s.drop_last()[j] == t[i - 1];
            assert(s[j] == t[i - 1]);
        } else {
            assert(s[s.len() - 1] == s.last());
        }
    }
}

proof fn lemma_sorted_wf(rows: Seq<TopRow<Document>>, lt: spec_fn(
    TopRow<Document>,
    TopRow<Document>,
) -> bool)
    ensures
        page_wf(rows) ==> page_wf(stable_sorted(rows, lt)),
        scores_wf(rows) ==> scores_wf(stable_sorted(rows, lt)),
{
    let t = stable_sorted(rows, lt);
    assert forall|i: int| 0 <= i < t.len() implies rows.contains(#[trigger] t[i]) by {
        lemma_sorted_from(rows, lt, i);
    }
}

proof fn lemma_page_wf<
    O: Fn(&Value, &Value) -> Rank,
    X: Fn(&Value, &Value) -> Rank,
>(
    o: O,
    x: X,
    descending: bool,
    cursor: Value,
    cursor_key: Seq<u8>,
    limit: nat,
    rows: Seq<TopRow<Document>>,
)
    ensures
        page_wf(rows) ==> page_wf(
            page_behind(o, x, descending, cursor, cursor_key, limit, rows),
        ),
        scores_wf(rows) ==> scores_wf(
            page_behind(o, x, descending, cursor, cursor_key, limit, rows),
        ),
{
    let sorted = in_page_order(o, descending, rows);
    lemma_sorted_wf(rows, crate::paging::page_order(o, descending));
    let found = crate::paging::rows_behind(x, descending, cursor, cursor_key, sorted);
    assert forall|i: int| 0 <= i < found.len() implies sorted.contains(#[trigger] found[i]) by {
        sorted.lemma_filter_contains_rev(
            |r: TopRow<Document>|
                crate::paging::row_behind(x, descending, cursor, cursor_key, r),
            found[i],
        );
    }
}

fn plain_docs(rows: Vec<TopRow<Document>>) -> (r: Vec<Document>)
    requires
        page_wf(rows@),
    ensures
        all_docs(r@) == plain_fields(rows@),
        docs_wf(r@),
{
    let ghost all = rows@;
    let mut out: Vec<Document> = Vec::new();
    for row in it: rows
        invariant
            it.seq() == all,
            page_wf(all),
            out@.len() == it.index(),
            forall|i: int| 0 <= i < out@.len() ==> #[trigger] out@[i] == all[i].2,
    {
        let (_, _, doc) = row;
        out.push(doc);
    }
    proof {
        assert(all_docs(out@) =~= plain_fields(all));
        assert forall|i: int| 0 <= i < out@.len() implies doc_wf(#[trigger] out@[i]) by {
            assert(doc_wf(all[i].2));
        }
    }
    out
}

fn scored_docs(rows: Vec<TopRow<Document>>) -> (r: Vec<Document>)
    requires
        page_wf(rows@),
        scores_wf(rows@),
    ensures
        all_docs(r@) == scored_fields(rows@),
        docs_wf(r@),
{
    let ghost all = rows@;
    let mut out: Vec<Document> = Vec::new();
    for row in it: rows
        invariant
            it.seq() == all,
            page_wf(all),
            scores_wf(all),
            docs_wf(out@),
            out@.len() == it.index(),
            forall|i: int|
                0 <= i < out@.len() ==> doc_view(#[trigger] out@[i]) == doc_view(
                    all[i].2,
                ).insert("_score"@, value_view(all[i].0)),
    {
        proof {
            let i = it.index() as int;
            assert(all[i] == row);
            assert(doc_wf(all[i].2) && value_wf(all[i].0));
        }
        let (score, _, doc) = row;
        let mut scored = doc;
        scored.put_field("_score".to_owned(), score);
        out.push(scored);
    }
    proof {
        assert(all_docs(out@) =~= scored_fields(all));
    }
    out
}

/// The page behind a score cursor: fetches twice as deep each time until one
/// settles it.
pub open spec fn score_page<C: SearchCluster, O: Fn(&Value, &Value) -> Rank, X: Fn(&Value, &Value) -> Rank>(
    c: C,
    o: O,
    x: X,
    table: Seq<char>,
    ask: Ask,
    cursor: Value,
    cursor_key: Seq<u8>,
    limit: u64,
    k: u64,
) -> Result<Seq<TopRow<Document>>, ErrorView>
    decreases AFTER_FETCH_MAX - k,
{
    match c.hits_of(table, Ask { k: Some(k), ..ask }) {
        Err(e) => Err(e@),
        Ok(hits) => match settled(o, x, true, cursor, cursor_key, limit, k, by_score(hits)) {
            SettledView::Page(p) => Ok(p),
            SettledView::TooDeep => Err(too_deep(false)),
            SettledView::Deeper(n) => if k < n <= AFTER_FETCH_MAX {
                score_page(c, o, x, table, ask, cursor, cursor_key, limit, n)
            } else {
                Err(too_deep(false))
            },
        },
    }
}

/// The refusal of a cursor deeper than the ceiling.
pub open spec fn too_deep(sorted: bool) -> ErrorView {
    ErrorView::ResourceLimit(
        if sorted {
            "AFTER cursor is deeper than 65536 sorted hits — narrow the query"@
        } else {
            "AFTER cursor is deeper than 65536 ranked hits — narrow the query"@
        },
    )
}

fn fetch_score_page<
    C: SearchCluster,
    L: Fn(&Document, &String) -> Value,
    O: Fn(&Value, &Value) -> Rank,
    X: Fn(&Value, &Value) -> Rank,
>(
    c: &mut C,
    x: &Scoring<L, O, X>,
    table: &str,
    query: &SearchQuery,
    residual: &Vec<&Expr>,
    highlights: &Vec<HighlightReq>,
    cursor: &Value,
    cursor_key: &Vec<u8>,
    limit: u64,
) -> (r: Result<Vec<TopRow<Document>>, EngineError>)
    requires
        scores_soundly(*x),
    ensures
        answers_alike(*old(c), *final(c)),
        ({
            let v = score_page(
                *old(c),
                x.order,
                x.against,
                table@,
                asked(*query, None, residual@, highlights@),
                *cursor,
                cursor_key@,
                limit,
                first_depth(limit),
            );
            match r {
                Ok(rows) => v == Ok::<Seq<TopRow<Document>>, ErrorView>(rows@) && page_wf(rows@)
                    && scores_wf(rows@),
                Err(e) => v == Err::<Seq<TopRow<Document>>, ErrorView>(e@),
            }
        }),
{
    let ghost ask = asked(*query, None, residual@, highlights@);
    let mut k: u64 = first_after_fetch(limit);
    loop
        invariant
            scores_soundly(*x),
            answers_alike(*old(c), *c),
            ask == asked(*query, None, residual@, highlights@),
            0 < k <= AFTER_FETCH_MAX,
            score_page(
                *old(c),
                x.order,
                x.against,
                table@,
                ask,
                *cursor,
                cursor_key@,
                limit,
                first_depth(limit),
            ) == score_page(
                *old(c),
                x.order,
                x.against,
                table@,
                ask,
                *cursor,
                cursor_key@,
                limit,
                k,
            ),
        decreases AFTER_FETCH_MAX - k,
    {
        let ghost now = *c;
        proof {
            assert(asked(*query, Some(k), residual@, highlights@) == Ask { k: Some(k), ..ask });
            assert(now.hits_of(table@, Ask { k: Some(k), ..ask }) == old(c).hits_of(
                table@,
                Ask { k: Some(k), ..ask },
            ));
        }
        let hits = match c.search(table, query, Some(k), residual, highlights) {
            Err(e) => {
                return Err(e);
            },
            Ok(hits) => hits,
        };
        let rows = rows_by_score(hits);
        let ghost rs = rows@;
        proof {
            assert(page_wf(rs) && scores_wf(rs)) by {
                assert forall|i: int| 0 <= i < rs.len() implies doc_wf((#[trigger] rs[i]).2)
                    && value_wf(rs[i].0) by {
                    assert(doc_wf(hits@[i].1));
                }
            }
            lemma_page_wf(x.order, x.against, true, *cursor, cursor_key@, limit as nat, rs);
        }
        match settle(&x.order, &x.against, true, cursor, cursor_key, limit, k, rows) {
            Settled::Page(p) => {
                return Ok(p);
            },
            Settled::TooDeep => {
                return Err(too_deep_error(false));
            },
            Settled::Deeper(n) => {
                k = n;
            },
        }
    }
}

/// The page behind a column cursor: fetches in index order, twice as deep each
/// time until one settles it; over every match where the index cannot serve
/// the order.
pub open spec fn column_page<
    C: SearchCluster,
    G: Fn(&Value, &Value) -> Rank,
    L: Fn(&Document, &String) -> Value,
>(
    c: C,
    g: G,
    l: L,
    table: Seq<char>,
    col: Seq<char>,
    descending: bool,
    ask: Ask,
    cursor: Value,
    cursor_key: Seq<u8>,
    limit: u64,
    k: u64,
) -> Result<Seq<TopRow<Document>>, ErrorView>
    decreases AFTER_FETCH_MAX - k,
{
    match c.sorted_hits_of(table, col, descending, Ask { k: Some(k), ..ask }) {
        Err(e) => Err(e@),
        Ok(None) => match c.hits_of(table, Ask { k: None, ..ask }) {
            Err(e) => Err(e@),
            Ok(hits) => Ok(
                page_behind(
                    g,
                    g,
                    descending,
                    cursor,
                    cursor_key,
                    limit as nat,
                    by_column(l, col, unscored(hits)),
                ),
            ),
        },
        Ok(Some(rows)) => match settled(
            g,
            g,
            descending,
            cursor,
            cursor_key,
            limit,
            k,
            by_column(l, col, rows),
        ) {
            SettledView::Page(p) => Ok(p),
            SettledView::TooDeep => Err(too_deep(true)),
            SettledView::Deeper(n) => if k < n <= AFTER_FETCH_MAX {
                column_page(
                    c,
                    g,
                    l,
                    table,
                    col,
                    descending,
                    ask,
                    cursor,
                    cursor_key,
                    limit,
                    n,
                )
            } else {
                Err(too_deep(true))
            },
        },
    }
}

fn fetch_column_page<
    C: SearchCluster,
    G: Fn(&Value, &Value) -> Rank,
    L: Fn(&Document, &String) -> Value,
    O: Fn(&Value, &Value) -> Rank,
    X: Fn(&Value, &Value) -> Rank,
>(
    c: &mut C,
    g: &G,
    x: &Scoring<L, O, X>,
    table: &str,
    query: &SearchQuery,
    col: &String,
    descending: bool,
    residual: &Vec<&Expr>,
    highlights: &Vec<HighlightReq>,
    cursor: &Value,
    cursor_key: &Vec<u8>,
    limit: u64,
) -> (r: Result<Vec<TopRow<Document>>, EngineError>)
    requires
        is_ranking(*g),
        scores_soundly(*x),
    ensures
        answers_alike(*old(c), *final(c)),
        ({
            let v = column_page(
                *old(c),
                *g,
                x.at,
                table@,
                col@,
                descending,
                asked(*query, None, residual@, highlights@),
                *cursor,
                cursor_key@,
                limit,
                first_depth(limit),
            );
            match r {
                Ok(rows) => v == Ok::<Seq<TopRow<Document>>, ErrorView>(rows@) && page_wf(rows@),
                Err(e) => v == Err::<Seq<TopRow<Document>>, ErrorView>(e@),
            }
        }),
{
    let ghost ask = asked(*query, None, residual@, highlights@);
    let mut k: u64 = first_after_fetch(limit);
    loop
        invariant
            is_ranking(*g),
            scores_soundly(*x),
            answers_alike(*old(c), *c),
            ask == asked(*query, None, residual@, highlights@),
            0 < k <= AFTER_FETCH_MAX,
            column_page(
                *old(c),
                *g,
                x.at,
                table@,
                col@,
                descending,
                ask,
                *cursor,
                cursor_key@,
                limit,
                first_depth(limit),
            ) == column_page(
                *old(c),
                *g,
                x.at,
                table@,
                col@,
                descending,
                ask,
                *cursor,
                cursor_key@,
                limit,
                k,
            ),
        decreases AFTER_FETCH_MAX - k,
    {
        let ghost now = *c;
        proof {
            assert(asked(*query, Some(k), residual@, highlights@) == Ask { k: Some(k), ..ask });
            assert(now.sorted_hits_of(table@, col@, descending, Ask { k: Some(k), ..ask })
                == old(c).sorted_hits_of(table@, col@, descending, Ask { k: Some(k), ..ask }));
        }
        let sorted = match c.search_sorted(
            table,
            query,
            col,
            descending,
            k,
            residual,
            highlights,
        ) {
            Err(e) => {
                return Err(e);
            },
            Ok(sorted) => sorted,
        };
        let rows = match sorted {
            None => {
                let ghost then = *c;
                proof {
                    assert(ask == Ask { k: None, ..ask });
                    assert(then.hits_of(table@, ask) == now.hits_of(table@, ask));
                    assert(now.hits_of(table@, ask) == old(c).hits_of(table@, ask));
                }
                let hits = match c.search(table, query, None, residual, highlights) {
                    Err(e) => {
                        return Err(e);
                    },
                    Ok(hits) => hits,
                };
                let ghost hs = hits@;
                let all = rows_by_column(x, col, drop_scores(hits));
                proof {
                    assert forall|i: int| 0 <= i < all@.len() implies doc_wf(
                        (#[trigger] all@[i]).2,
                    ) by {
                        assert(doc_wf(hs[i].1));
                    }
                    lemma_page_wf(*g, *g, descending, *cursor, cursor_key@, limit as nat, all@);
                }
                return Ok(take_page(g, g, descending, cursor, cursor_key, limit, all));
            },
            Some(rows) => rows,
        };
        let ghost got = rows@;
        let keyed = rows_by_column(x, col, rows);
        let ghost rs = keyed@;
        proof {
            assert forall|i: int| 0 <= i < rs.len() implies doc_wf((#[trigger] rs[i]).2) by {
                assert(doc_wf(got[i].1));
            }
            lemma_page_wf(*g, *g, descending, *cursor, cursor_key@, limit as nat, rs);
        }
        match settle(g, g, descending, cursor, cursor_key, limit, k, keyed) {
            Settled::Page(p) => {
                return Ok(p);
            },
            Settled::TooDeep => {
                return Err(too_deep_error(true));
            },
            Settled::Deeper(n) => {
                k = n;
            },
        }
    }
}

/// What the rows of a keyset page behind the cursor `values` hold, or why
/// there is none.
pub open spec fn after_rows<
    C: SearchCluster,
    F: Fn(&Expr, &Document) -> Result<Value, EngineError>,
    G: Fn(&Value, &Value) -> Rank,
    K: Fn(&Vec<&Value>) -> Vec<u8>,
    D: Fn(&Vec<&Value>) -> Vec<u8>,
    A: Fn(&Expr, &Vec<&Document>) -> Result<Value, EngineError>,
    H: Fn(&Expr, &Vec<&Document>) -> Result<bool, EngineError>,
    P: Fn(&Expr, &Document) -> Result<bool, EngineError>,
    J: Fn(&Document, &String) -> Option<Vec<u8>>,
    M: Fn(&Value, &Value) -> Option<Rank>,
    T: Fn(&Value) -> Option<i64>,
    Z: Fn(&AggFunc, &AggArg, &Vec<&Document>, AggOutcome) -> Result<Value, EngineError>,
    L: Fn(&Document, &String) -> Value,
    O: Fn(&Value, &Value) -> Rank,
    X: Fn(&Value, &Value) -> Rank,
>(
    c: C,
    s: Semantics<F, G, K, D, A, H, P, J, M, T, Z>,
    x: Scoring<L, O, X>,
    sel: Select,
    values: Seq<Expr>,
    query: QueryView,
    residual: Seq<Expr>,
    d: OptsView,
) -> Result<Seq<Fields>, ErrorView> {
    match after_cursor(sel, values) {
        Err(e) => Err(e),
        Ok((limit, sort_expr, pk_expr)) => match (
            evaluated(s.eval, sort_expr, Map::empty()),
            evaluated(s.eval, pk_expr, Map::empty()),
        ) {
            (Err(e), _) => Err(e@),
            (_, Err(e)) => Err(e@),
            (Ok(cursor), Ok(pk_value)) => {
                let key = encoding(s.row_key, seq![value_view(pk_value)]);
                match after_pk(c, sel, pk_value) {
                    Err(e) => Err(e),
                    Ok(columns) => match after_plan(sel, cursor, pk_value, columns, d) {
                        Err(e) => Err(e),
                        Ok((AfterOrderView::Score, hs)) => match score_page(
                            c,
                            x.order,
                            x.against,
                            sel.from@,
                            Ask { query, k: None, residual, highlights: hs },
                            cursor,
                            key,
                            limit,
                            first_depth(limit),
                        ) {
                            Err(e) => Err(e),
                            Ok(rows) => Ok(scored_fields(rows)),
                        },
                        Ok((AfterOrderView::Column(col, descending), hs)) => match column_page(
                            c,
                            s.rank,
                            x.at,
                            sel.from@,
                            col,
                            descending,
                            Ask { query, k: None, residual, highlights: hs },
                            cursor,
                            key,
                            limit,
                            first_depth(limit),
                        ) {
                            Err(e) => Err(e),
                            Ok(rows) => Ok(plain_fields(rows)),
                        },
                    },
                }
            },
        },
    }
}

/// The number of key columns that a cursor's key value stands against: asked
/// for only where there is such a value.
pub open spec fn after_pk<C: SearchCluster>(c: C, sel: Select, pk_value: Value) -> Result<
    nat,
    ErrorView,
> {
    if pk_value is Null {
        Ok(0)
    } else {
        match c.key_columns(sel.from@) {
            Err(e) => Err(e),
            Ok(pk) => Ok(pk.len()),
        }
    }
}

/// Runs a keyset page of a search, behind the cursor `values`.
pub fn run_search_after<
    C: SearchCluster,
    F: Fn(&Expr, &Document) -> Result<Value, EngineError>,
    G: Fn(&Value, &Value) -> Rank,
    K: Fn(&Vec<&Value>) -> Vec<u8>,
    D: Fn(&Vec<&Value>) -> Vec<u8>,
    A: Fn(&Expr, &Vec<&Document>) -> Result<Value, EngineError>,
    H: Fn(&Expr, &Vec<&Document>) -> Result<bool, EngineError>,
    P: Fn(&Expr, &Document) -> Result<bool, EngineError>,
    J: Fn(&Document, &String) -> Option<Vec<u8>>,
    M: Fn(&Value, &Value) -> Option<Rank>,
    T: Fn(&Value) -> Option<i64>,
    Z: Fn(&AggFunc, &AggArg, &Vec<&Document>, AggOutcome) -> Result<Value, EngineError>,
    L: Fn(&Document, &String) -> Value,
    O: Fn(&Value, &Value) -> Rank,
    X: Fn(&Value, &Value) -> Rank,
>(
    c: &mut C,
    s: &Semantics<F, G, K, D, A, H, P, J, M, T, Z>,
    x: &Scoring<L, O, X>,
    sel: &Select,
    values: &Vec<Expr>,
    query: &SearchQuery,
    residual: &Vec<&Expr>,
    defaults: &HighlightOpts,
) -> (r: Result<ResultSet, EngineError>)
    requires
        sound(*s),
        scores_soundly(*x),
    ensures
        answers_alike(*old(c), *final(c)),
        result_is(
            r,
            match after_rows(
                *old(c),
                *s,
                *x,
                *sel,
                values@,
                query_view(*query),
                crate::constraints::pointees(residual@),
                defaults@,
            ) {
                Err(e) => Err(e),
                Ok(ms) => shown(*s, *sel, ms, false, Set::empty(), true),
            },
        ),
{
    let (limit, sort_expr, pk_expr) = match parse_after_cursor(sel, values) {
        Err(e) => {
            return Err(e);
        },
        Ok(cursor) => cursor,
    };
    let empty = Document::new();
    let cursor = match evaluate(&s.eval, sort_expr, &empty) {
        Err(e) => {
            return Err(e);
        },
        Ok(v) => v,
    };
    let pk_value = match evaluate(&s.eval, pk_expr, &empty) {
        Err(e) => {
            return Err(e);
        },
        Ok(v) => v,
    };
    let columns: usize = if pk_value.is_null() {
        0
    } else {
        match c.primary_key(sel.from.as_str()) {
            Err(e) => {
                return Err(e);
            },
            Ok(pk) => {
                proof {
                    assert(crate::text::views(pk@).len() == pk@.len());
                }
                pk.len()
            },
        }
    };
    let plan = match plan_search_after(sel, &cursor, &pk_value, columns, defaults) {
        Err(e) => {
            return Err(e);
        },
        Ok(plan) => plan,
    };
    let mut tuple: Vec<&Value> = Vec::new();
    tuple.push(&pk_value);
    let key = encode_tuple(&s.row_key, &tuple);
    proof {
        assert(crate::execute::tuple_view(tuple@) =~= seq![value_view(pk_value)]);
    }
    let docs = match &plan.order {
        AfterOrder::Score => match fetch_score_page(
            c,
            x,
            sel.from.as_str(),
            query,
            residual,
            &plan.highlights,
            &cursor,
            &key,
            limit,
        ) {
            Err(e) => {
                return Err(e);
            },
            Ok(rows) => scored_docs(rows),
        },
        AfterOrder::Column { col, descending } => match fetch_column_page(
            c,
            &s.rank,
            x,
            sel.from.as_str(),
            query,
            col,
            *descending,
            residual,
            &plan.highlights,
            &cursor,
            &key,
            limit,
        ) {
            Err(e) => {
                return Err(e);
            },
            Ok(rows) => plain_docs(rows),
        },
    };
    let none = NameSet::new();
    proof {
        assert(none@ =~= Set::<Seq<char>>::empty());
    }
    show(s, sel, docs, false, &none, true)
}

/// The strings of a document at some columns.
pub open spec fn strings_at<L: Fn(&Document, &String) -> Value>(
    l: L,
    doc: Document,
    cols: Seq<Seq<char>>,
) -> Seq<Seq<char>>
    decreases cols.len(),
{
    if cols.len() == 0 {
        Seq::empty()
    } else {
        let before = strings_at(l, doc, cols.drop_last());
        match value_at(l, doc, cols.last()) {
            Value::String(t) => before.push(t@),
            _ => before,
        }
    }
}

/// The text that stands for a document: its strings at some columns, or all
/// its own strings where none are named.
pub open spec fn document_text<L: Fn(&Document, &String) -> Value>(
    l: L,
    doc: Document,
    cols: Seq<Seq<char>>,
) -> Seq<char> {
    candidate_text(
        if cols.len() == 0 {
            own_strings(doc.fields.entries@)
        } else {
            strings_at(l, doc, cols)
        },
    )
}

fn make_document_text<
    L: Fn(&Document, &String) -> Value,
    O: Fn(&Value, &Value) -> Rank,
    X: Fn(&Value, &Value) -> Rank,
>(x: &Scoring<L, O, X>, doc: &Document, cols: &Vec<String>) -> (r: String)
    requires
        scores_soundly(*x),
        doc_wf(*doc),
    ensures
        r@ == document_text(x.at, *doc, views(cols@)),
{
    proof {
        assert(views(cols@).len() == cols@.len());
    }
    if cols.len() == 0 {
        return rerank_doc_text(&rerank_own_fields(doc));
    }
    let ghost cs = views(cols@);
    let mut found: Vec<String> = Vec::new();
    let mut i: usize = 0;
    proof {
        assert(cs.take(0) =~= Seq::<Seq<char>>::empty());
        assert(views(found@) =~= Seq::<Seq<char>>::empty());
    }
    while i < cols.len()
        invariant
            scores_soundly(*x),
            cs == views(cols@),
            i <= cols@.len(),
            views(found@) == strings_at(x.at, *doc, cs.take(i as int)),
        decreases cols@.len() - i,
    {
        let ghost before = views(found@);
        proof {
            assert(cs.take(i + 1).drop_last() =~= cs.take(i as int));
            assert(cs.take(i + 1).last() == cols@[i as int]@);
        }
        if let Value::String(t) = read_at(x, doc, &cols[i]) {
            let ghost tv = t@;
            found.push(t);
            proof {
                assert(views(found@) =~= before.push(tv));
            }
        }
        i = i + 1;
    }
    let mut parts: Vec<&String> = Vec::new();
    let mut j: usize = 0;
    while j < found.len()
        invariant
            j <= found@.len(),
            parts@.len() == j,
            forall|k: int| 0 <= k < j ==> (#[trigger] parts@[k])@ == found@[k]@,
        decreases found@.len() - j,
    {
        parts.push(&found[j]);
        j = j + 1;
    }
    proof {
        assert(cs.take(cs.len() as int) =~= cs);
        assert(parts@.map_values(|p: &String| p@) =~= views(found@));
    }
    rerank_doc_text(&parts)
}

/// The columns whose strings stand for a document to the reranker.
pub open spec fn rerank_columns(rr: Rerank, query: QueryView) -> Seq<Seq<char>> {
    match rr.column {
        Some(c) => seq![c@],
        None => fields_into(query, Seq::empty()),
    }
}

/// The texts that stand for documents to the reranker.
pub open spec fn document_texts<L: Fn(&Document, &String) -> Value>(
    l: L,
    docs: Seq<Document>,
    cols: Seq<Seq<char>>,
) -> Seq<Seq<char>> {
    docs.map_values(|d: Document| document_text(l, d, cols))
}

/// What reranked candidates hold: best first by their scores, ties in the
/// order of retrieval, each with its score.
pub open spec fn reranked_fields(docs: Seq<Document>, scores: Seq<(i64, Value)>) -> Seq<Fields> {
    stable_sorted(
        places(docs.len()),
        |a: int, b: int| scored_better(scores.map_values(|p: (i64, Value)| p.0), a, b),
    ).map_values(|i: int| doc_view(docs[i]).insert("_score"@, value_view(scores[i].1)))
}

/// What reranked candidates hold, or why they cannot be reranked.
pub open spec fn reranked<C: SearchCluster, L: Fn(&Document, &String) -> Value>(
    c: C,
    l: L,
    rr: Rerank,
    query: QueryView,
    docs: Seq<Document>,
) -> Result<Seq<Fields>, ErrorView> {
    if docs.len() == 0 {
        Ok(Seq::empty())
    } else if rr.query is None && blank(rerank_query(rr, query)) {
        Err(
            ErrorView::Type(
                "RERANK could not derive a query text from the search predicate; add QUERY '<text>'"@,
            ),
        )
    } else {
        let model = match rr.model {
            Some(m) => m@,
            None => ""@,
        };
        match c.scores_of(
            model,
            rerank_query(rr, query),
            document_texts(l, docs, rerank_columns(rr, query)),
        ) {
            Err(e) => Err(e@),
            Ok(scores) => Ok(reranked_fields(docs, scores)),
        }
    }
}

/// Reranks candidates.
pub fn apply_rerank<
    C: SearchCluster,
    L: Fn(&Document, &String) -> Value,
    O: Fn(&Value, &Value) -> Rank,
    X: Fn(&Value, &Value) -> Rank,
>(
    c: &C,
    x: &Scoring<L, O, X>,
    rr: &Rerank,
    query: &SearchQuery,
    docs: Vec<Document>,
) -> (r: Result<Vec<Document>, EngineError>)
    requires
        scores_soundly(*x),
        docs_wf(docs@),
    ensures
        match r {
            Ok(out) => reranked(*c, x.at, *rr, query_view(*query), docs@) == Ok::<
                Seq<Fields>,
                ErrorView,
            >(all_docs(out@)) && docs_wf(out@),
            Err(e) => reranked(*c, x.at, *rr, query_view(*query), docs@) == Err::<
                Seq<Fields>,
                ErrorView,
            >(e@),
        },
{
    if docs.len() == 0 {
        proof {
            assert(all_docs(docs@) =~= Seq::<Fields>::empty());
        }
        return Ok(docs);
    }
    let text = match rerank_query_text(rr, query) {
        Err(e) => {
            return Err(e);
        },
        Ok(t) => t,
    };
    let mut cols: Vec<String> = Vec::new();
    proof {
        assert(views(cols@) =~= Seq::<Seq<char>>::empty());
    }
    match &rr.column {
        Some(col) => {
            cols.push(col.clone());
            proof {
                assert(views(cols@) =~= seq![col@]);
            }
        },
        None => collect_search_fields(query, &mut cols),
    }
    let ghost cs = views(cols@);
    let mut texts: Vec<String> = Vec::new();
    let mut i: usize = 0;
    while i < docs.len()
        invariant
            scores_soundly(*x),
            docs_wf(docs@),
            cs == views(cols@),
            i <= docs@.len(),
            texts@.len() == i,
            forall|k: int|
                0 <= k < i ==> (#[trigger] texts@[k])@ == document_text(x.at, docs@[k], cs),
        decreases docs@.len() - i,
    {
        texts.push(make_document_text(x, &docs[i], &cols));
        i = i + 1;
    }
    proof {
        assert(views(texts@) =~= document_texts(x.at, docs@, cs));
    }
    let model: &str = match &rr.model {
        Some(m) => m.as_str(),
        None => "",
    };
    let scores = match c.rerank(model, text.as_str(), &texts) {
        Err(e) => {
            return Err(e);
        },
        Ok(scores) => scores,
    };
    let mut ranks: Vec<i64> = Vec::new();
    let mut j: usize = 0;
    while j < scores.len()
        invariant
            j <= scores@.len(),
            ranks@.len() == j,
            forall|k: int| 0 <= k < j ==> #[trigger] ranks@[k] == scores@[k].0,
        decreases scores@.len() - j,
    {
        ranks.push(scores[j].0);
        j = j + 1;
    }
    let order = rerank_order(&ranks);
    let ghost rk = scores@.map_values(|p: (i64, Value)| p.0);
    let ghost lt = |a: int, b: int| scored_better(rk, a, b);
    let ghost want = reranked_fields(docs@, scores@);
    proof {
        assert(ranks@ =~= rk);
        assert(as_places(order@) == stable_sorted(places(docs@.len()), lt));
        assert forall|k: int| 0 <= k < order@.len() implies (#[trigger] order@[k]) < docs@.len() by {
            lemma_sorted_from(places(docs@.len()), lt, k);
            assert(as_places(order@)[k] == order@[k]);
        }
        assert(want.len() == order@.len());
        assert forall|k: int| 0 <= k < order@.len() implies #[trigger] want[k] == doc_view(
            docs@[order@[k] as int],
        ).insert("_score"@, value_view(scores@[order@[k] as int].1)) by {
            assert(as_places(order@)[k] == order@[k]);
        }
    }
    let mut out: Vec<Document> = Vec::new();
    let mut n: usize = 0;
    while n < order.len()
        invariant
            docs_wf(docs@),
            docs_wf(out@),
            n <= order@.len(),
            out@.len() == n,
            scores@.len() == docs@.len(),
            forall|k: int| 0 <= k < scores@.len() ==> value_wf((#[trigger] scores@[k]).1),
            forall|k: int| 0 <= k < order@.len() ==> (#[trigger] order@[k]) < docs@.len(),
            want.len() == order@.len(),
            forall|k: int|
                0 <= k < order@.len() ==> #[trigger] want[k] == doc_view(
                    docs@[order@[k] as int],
                ).insert("_score"@, value_view(scores@[order@[k] as int].1)),
            forall|k: int| 0 <= k < n ==> doc_view(#[trigger] out@[k]) == want[k],
        decreases order@.len() - n,
    {
        let p: usize = order[n];
        let mut doc = copy_document(&docs[p]);
        doc.put_field("_score".to_owned(), copy_value(&scores[p].1));
        proof {
            assert(want[n as int] == doc_view(docs@[order@[n as int] as int]).insert(
                "_score"@,
                value_view(scores@[order@[n as int] as int].1),
            ));
        }
        out.push(doc);
        n = n + 1;
    }
    proof {
        assert(all_docs(out@) =~= want);
    }
    Ok(out)
}

/// Hits without a sort value, so that they go by their keys.
pub open spec fn by_key(hits: Seq<Hit>) -> Seq<TopRow<Document>> {
    hits.map_values(|h: Hit| (Value::Null, h.0, h.1))
}

fn rows_by_key(hits: Vec<Hit>) -> (r: Vec<TopRow<Document>>)
    ensures
        r@ == by_key(hits@),
{
    let ghost all = hits@;
    let mut out: Vec<TopRow<Document>> = Vec::new();
    for hit in it: hits
        invariant
            it.seq() == all,
            out@.len() == it.index(),
            forall|i: int|
                0 <= i < out@.len() ==> #[trigger] out@[i] == (Value::Null, all[i].0, all[i].1),
    {
        let (key, doc, _) = hit;
        out.push((Value::Null, key, doc));
    }
    proof {
        assert(out@ =~= by_key(all));
    }
    out
}

proof fn lemma_hits_wf(hits: Seq<Hit>)
    requires
        hits_wf(hits),
    ensures
        page_wf(by_score(hits)),
        scores_wf(by_score(hits)),
        page_wf(by_key(hits)),
{
    let a = by_score(hits);
    let b = by_key(hits);
    assert forall|i: int| 0 <= i < a.len() implies doc_wf((#[trigger] a[i]).2) && value_wf(
        a[i].0,
    ) by {
        assert(doc_wf(hits[i].1));
    }
    assert forall|i: int| 0 <= i < b.len() implies doc_wf((#[trigger] b[i]).2) by {
        assert(doc_wf(hits[i].1));
    }
}

/// The documents of hits.
pub open spec fn hit_docs(hits: Seq<Hit>) -> Seq<Document> {
    hits.map_values(|h: Hit| h.1)
}

fn documents_of(hits: Vec<Hit>) -> (r: Vec<Document>)
    requires
        hits_wf(hits@),
    ensures
        r@ == hit_docs(hits@),
        docs_wf(r@),
        all_docs(r@) == plain_fields(by_key(hits@)),
{
    let ghost all = hits@;
    let mut out: Vec<Document> = Vec::new();
    for hit in it: hits
        invariant
            it.seq() == all,
            hits_wf(all),
            out@.len() == it.index(),
            forall|i: int| 0 <= i < out@.len() ==> #[trigger] out@[i] == all[i].1,
    {
        let (_, doc, _) = hit;
        out.push(doc);
    }
    proof {
        assert(out@ =~= hit_docs(all));
        assert(all_docs(out@) =~= plain_fields(by_key(all)));
        assert forall|i: int| 0 <= i < out@.len() implies doc_wf(#[trigger] out@[i]) by {
            assert(doc_wf(all[i].1));
        }
    }
    out
}

/// The refusal of a grouped search that had to read every match and could not.
pub open spec fn grouped_refusal(e: ErrorView) -> ErrorView {
    match e {
        ErrorView::ResourceLimit(msg) => ErrorView::ResourceLimit(grouped_fallback_text(msg)),
        other => other,
    }
}

/// The result of an aggregation inside the index.
pub open spec fn aggregated_in_index(sel: Select, outs: Seq<AggOut>, rows: Seq<AggRow>) -> ResultView {
    ResultView {
        columns: output_names(sel.items@, Seq::empty()),
        rows: match sel.limit {
            Some(l) => first_few(agg_cells(outs, rows), l as nat),
            None => agg_cells(outs, rows),
        },
    }
}

/// The cells of aggregated rows.
pub open spec fn agg_cells(outs: Seq<AggOut>, rows: Seq<AggRow>) -> Seq<Seq<ValueView>> {
    rows.map_values(
        |row: AggRow| outs.map_values(|o: AggOut| value_view(agg_cell(row, o))),
    )
}

/// What a search query's rows hold, in the order they are shown in, or why
/// there are none; nothing where the index answers for them.
pub open spec fn searched_rows<
    C: SearchCluster,
    F: Fn(&Expr, &Document) -> Result<Value, EngineError>,
    G: Fn(&Value, &Value) -> Rank,
    K: Fn(&Vec<&Value>) -> Vec<u8>,
    D: Fn(&Vec<&Value>) -> Vec<u8>,
    A: Fn(&Expr, &Vec<&Document>) -> Result<Value, EngineError>,
    H: Fn(&Expr, &Vec<&Document>) -> Result<bool, EngineError>,
    P: Fn(&Expr, &Document) -> Result<bool, EngineError>,
    J: Fn(&Document, &String) -> Option<Vec<u8>>,
    M: Fn(&Value, &Value) -> Option<Rank>,
    T: Fn(&Value) -> Option<i64>,
    Z: Fn(&AggFunc, &AggArg, &Vec<&Document>, AggOutcome) -> Result<Value, EngineError>,
    L: Fn(&Document, &String) -> Value,
    O: Fn(&Value, &Value) -> Rank,
    X: Fn(&Value, &Value) -> Rank,
>(
    c: C,
    s: Semantics<F, G, K, D, A, H, P, J, M, T, Z>,
    x: Scoring<L, O, X>,
    sel: Select,
    p: SearchPlanView,
    d: OptsView,
) -> Result<Seq<Fields>, ErrorView> {
    let table = sel.from@;
    let every = Ask { query: p.query, k: None, residual: p.residual, highlights: p.highlights };
    match p.strategy {
        SearchStrategy::After => after_rows(
            c,
            s,
            x,
            sel,
            sel.after->0@,
            p.query,
            p.residual,
            d,
        ),
        SearchStrategy::Rerank { top } => match c.hits_of(table, Ask { k: Some(top), ..every }) {
            Err(e) => Err(e@),
            Ok(hits) => reranked(c, x.at, sel.rerank->0, p.query, hit_docs(hits)),
        },
        SearchStrategy::GroupTop => match c.hits_of(table, Ask { k: Some(u64::MAX), ..every }) {
            Err(e) => Err(e@),
            Ok(hits) => Ok(scored_fields(by_score(hits))),
        },
        SearchStrategy::GroupedInIndex | SearchStrategy::GroupedRows => match c.hits_of(
            table,
            every,
        ) {
            Err(e) => Err(grouped_refusal(e@)),
            Ok(hits) => Ok(plain_fields(by_key(hits))),
        },
        SearchStrategy::Unordered => match c.hits_of(table, every) {
            Err(e) => Err(e@),
            Ok(hits) => Ok(scored_fields(by_score(hits))),
        },
        SearchStrategy::Ranked { k } => match c.hits_of(table, Ask { k: Some(k), ..every }) {
            Err(e) => Err(e@),
            Ok(hits) => Ok(scored_fields(in_page_order(x.order, true, by_score(hits)))),
        },
        SearchStrategy::Sorted { want, descending } => sorted_hits(
            c,
            s.rank,
            x.at,
            sel,
            want,
            descending,
            every,
        ),
        SearchStrategy::Gather => gathered_hits(c, s.rank, table, every),
    }
}

/// What the first matches in the order of a column hold: those that the index
/// gives in that order, or every match where it cannot.
pub open spec fn sorted_hits<
    C: SearchCluster,
    G: Fn(&Value, &Value) -> Rank,
    L: Fn(&Document, &String) -> Value,
>(c: C, g: G, l: L, sel: Select, want: u64, descending: bool, every: Ask) -> Result<
    Seq<Fields>,
    ErrorView,
> {
    let col = order_column(sel);
    match c.sorted_hits_of(sel.from@, col, descending, Ask { k: Some(want), ..every }) {
        Err(e) => Err(e@),
        Ok(Some(rows)) => Ok(plain_fields(in_page_order(g, descending, by_column(l, col, rows)))),
        Ok(None) => gathered_hits(c, g, sel.from@, every),
    }
}

/// The column of the leading `ORDER BY` key.
pub open spec fn order_column(sel: Select) -> Seq<char> {
    match sel.order_by@[0].expr {
        Expr::Column(c) => c@,
        _ => Seq::empty(),
    }
}

/// What every match holds, in the order of the keys.
pub open spec fn gathered_hits<C: SearchCluster, G: Fn(&Value, &Value) -> Rank>(
    c: C,
    g: G,
    table: Seq<char>,
    every: Ask,
) -> Result<Seq<Fields>, ErrorView> {
    match c.hits_of(table, every) {
        Err(e) => Err(e@),
        Ok(hits) => Ok(plain_fields(in_page_order(g, false, by_key(hits)))),
    }
}

/// The result of a search query, or why it is refused.
pub open spec fn search_result<
    C: SearchCluster,
    F: Fn(&Expr, &Document) -> Result<Value, EngineError>,
    G: Fn(&Value, &Value) -> Rank,
    K: Fn(&Vec<&Value>) -> Vec<u8>,
    D: Fn(&Vec<&Value>) -> Vec<u8>,
    A: Fn(&Expr, &Vec<&Document>) -> Result<Value, EngineError>,
    H: Fn(&Expr, &Vec<&Document>) -> Result<bool, EngineError>,
    P: Fn(&Expr, &Document) -> Result<bool, EngineError>,
    J: Fn(&Document, &String) -> Option<Vec<u8>>,
    M: Fn(&Value, &Value) -> Option<Rank>,
    T: Fn(&Value) -> Option<i64>,
    Z: Fn(&AggFunc, &AggArg, &Vec<&Document>, AggOutcome) -> Result<Value, EngineError>,
    L: Fn(&Document, &String) -> Value,
    O: Fn(&Value, &Value) -> Rank,
    X: Fn(&Value, &Value) -> Rank,
>(c: C, s: Semantics<F, G, K, D, A, H, P, J, M, T, Z>, x: Scoring<L, O, X>, sel: Select, d: OptsView) -> Result<
    ResultView,
    ErrorView,
> {
    match search_plan(sel, d) {
        Err(e) => Err(e),
        Ok(p) => match in_index(c, sel, p) {
            Err(e) => Err(e),
            Ok(Some(rs)) => Ok(rs),
            Ok(None) => match searched_rows(c, s, x, sel, p, d) {
                Err(e) => Err(e),
                Ok(ms) => shown(s, sel, ms, false, Set::empty(), true),
            },
        },
    }
}

/// The result of a query that the index answers for by itself.
pub open spec fn in_index<C: SearchCluster>(c: C, sel: Select, p: SearchPlanView) -> Result<
    Option<ResultView>,
    ErrorView,
> {
    if p.strategy != SearchStrategy::GroupedInIndex {
        Ok(None)
    } else {
        let (group, items) = index_aggregate(sel)->0;
        match c.aggregates_of(sel.from@, p.query, group, items.metrics) {
            Err(e) => Err(e@),
            Ok(None) => Ok(None),
            Ok(Some(rows)) => Ok(Some(aggregated_in_index(sel, items.outs, rows))),
        }
    }
}

/// The cells of a row, copied.
fn copy_cells(cells: &Vec<&Value>) -> (r: Vec<Value>)
    requires
        row_wf(tuple(cells@)),
    ensures
        row_view(r@) == row_view(tuple(cells@)),
        row_wf(r@),
{
    let ghost t = tuple(cells@);
    let mut out: Vec<Value> = Vec::new();
    let mut i: usize = 0;
    while i < cells.len()
        invariant
            t == tuple(cells@),
            row_wf(t),
            row_wf(out@),
            i <= cells@.len(),
            out@.len() == i,
            forall|k: int| 0 <= k < i ==> value_view(#[trigger] out@[k]) == value_view(t[k]),
        decreases cells@.len() - i,
    {
        proof {
            assert(t[i as int] == *cells@[i as int]);
            assert(value_wf(t[i as int]));
        }
        out.push(copy_value(cells[i]));
        i = i + 1;
    }
    proof {
        assert(row_view(out@) =~= row_view(t));
    }
    out
}

/// The result of an aggregation inside the index.
fn finish_in_index(sel: &Select, outs: &Vec<AggOut>, rows: &Vec<AggRow>, metrics: usize) -> (r:
    ResultSet)
    requires
        agg_rows_wf(rows@, metrics as nat),
        forall|k: int|
            0 <= k < outs@.len() ==> (#[trigger] outs@[k] matches AggOut::Metric(m) ==> m
                < metrics),
    ensures
        r@ == aggregated_in_index(*sel, outs@, rows@),
        rows_wf(r.rows@),
{
    let cells = finish_agg_pushdown(rows, outs, sel.limit);
    let ghost all = agg_cells(outs@, rows@);
    let ghost want = aggregated_in_index(*sel, outs@, rows@).rows;
    let mut out: Vec<Vec<Value>> = Vec::new();
    let mut i: usize = 0;
    proof {
        assert(want.len() == cells@.len());
    }
    while i < cells.len()
        invariant
            agg_rows_wf(rows@, metrics as nat),
            forall|k: int|
                0 <= k < outs@.len() ==> (#[trigger] outs@[k] matches AggOut::Metric(m) ==> m
                    < metrics),
            cells@.len() <= rows@.len(),
            forall|k: int|
                0 <= k < cells@.len() ==> tuple((#[trigger] cells@[k])@) == outs@.map_values(
                    |o: AggOut| agg_cell(rows@[k], o),
                ),
            all == agg_cells(outs@, rows@),
            want.len() == cells@.len(),
            forall|k: int| 0 <= k < want.len() ==> #[trigger] want[k] == all[k],
            i <= cells@.len(),
            out@.len() == i,
            rows_wf(out@),
            forall|k: int| 0 <= k < i ==> row_view((#[trigger] out@[k])@) == want[k],
        decreases cells@.len() - i,
    {
        let ghost t = tuple(cells@[i as int]@);
        proof {
            let row = rows@[i as int];
            assert(t == outs@.map_values(|o: AggOut| agg_cell(row, o)));
            assert forall|k: int| 0 <= k < t.len() implies value_wf(#[trigger] t[k]) by {
                assert(t[k] == agg_cell(row, outs@[k]));
                assert(row.metrics@.len() == metrics && value_wf(row.key) && row_wf(row.metrics@));
                if let AggOut::Metric(m) = outs@[k] {
                    assert(value_wf(row.metrics@[m as int]));
                }
            }
            assert(row_view(t) =~= all[i as int]);
            assert(want[i as int] == all[i as int]);
        }
        out.push(copy_cells(&cells[i]));
        i = i + 1;
    }
    proof {
        assert(rows_view(out@) =~= want);
    }
    let none: Vec<String> = Vec::new();
    proof {
        assert(views(none@) =~= Seq::<Seq<char>>::empty());
    }
    let columns = output_columns(sel, &none);
    ResultSet { columns, rows: out }
}

/// Gathers every match in the order of the keys.
fn gather_hits<
    C: SearchCluster,
    F: Fn(&Expr, &Document) -> Result<Value, EngineError>,
    G: Fn(&Value, &Value) -> Rank,
    K: Fn(&Vec<&Value>) -> Vec<u8>,
    D: Fn(&Vec<&Value>) -> Vec<u8>,
    A: Fn(&Expr, &Vec<&Document>) -> Result<Value, EngineError>,
    H: Fn(&Expr, &Vec<&Document>) -> Result<bool, EngineError>,
    P: Fn(&Expr, &Document) -> Result<bool, EngineError>,
    J: Fn(&Document, &String) -> Option<Vec<u8>>,
    M: Fn(&Value, &Value) -> Option<Rank>,
    T: Fn(&Value) -> Option<i64>,
    Z: Fn(&AggFunc, &AggArg, &Vec<&Document>, AggOutcome) -> Result<Value, EngineError>,
    L: Fn(&Document, &String) -> Value,
    O: Fn(&Value, &Value) -> Rank,
    X: Fn(&Value, &Value) -> Rank,
>(
    c: &mut C,
    s: &Semantics<F, G, K, D, A, H, P, J, M, T, Z>,
    x: &Scoring<L, O, X>,
    table: &str,
    query: &SearchQuery,
    residual: &Vec<&Expr>,
    highlights: &Vec<HighlightReq>,
) -> (r: Result<Vec<Document>, EngineError>)
    requires
        sound(*s),
    ensures
        answers_alike(*old(c), *final(c)),
        match r {
            Ok(docs) => gathered_hits(
                *old(c),
                s.rank,
                table@,
                asked(*query, None, residual@, highlights@),
            ) == Ok::<Seq<Fields>, ErrorView>(all_docs(docs@)) && docs_wf(docs@),
            Err(e) => gathered_hits(
                *old(c),
                s.rank,
                table@,
                asked(*query, None, residual@, highlights@),
            ) == Err::<Seq<Fields>, ErrorView>(e@),
        },
{
    match c.search(table, query, None, residual, highlights) {
        Err(e) => Err(e),
        Ok(hits) => {
            proof {
                lemma_hits_wf(hits@);
                lemma_sorted_wf(by_key(hits@), crate::paging::page_order(s.rank, false));
            }
            Ok(plain_docs(sort_page(&s.rank, false, rows_by_key(hits))))
        },
    }
}

proof fn lemma_strategy(sel: Select, d: OptsView, p: SearchPlanView)
    requires
        search_plan(sel, d) == Ok::<SearchPlanView, ErrorView>(p),
    ensures
        p.strategy is After <==> sel.after is Some,
        p.strategy is Rerank <==> sel.after is None && sel.rerank is Some,
        p.strategy matches SearchStrategy::Rerank { top } ==> top == sel.rerank->0.top,
        p.strategy is GroupedInIndex ==> index_aggregate(sel) is Some,
        p.strategy is Sorted ==> sel.order_by@.len() == 1 && sel.order_by@[0].expr is Column,
{
}

/// Runs a full-text query. `defaults` are the highlight options that a request
/// does not name.
pub fn run_search_select<
    C: SearchCluster,
    F: Fn(&Expr, &Document) -> Result<Value, EngineError>,
    G: Fn(&Value, &Value) -> Rank,
    K: Fn(&Vec<&Value>) -> Vec<u8>,
    D: Fn(&Vec<&Value>) -> Vec<u8>,
    A: Fn(&Expr, &Vec<&Document>) -> Result<Value, EngineError>,
    H: Fn(&Expr, &Vec<&Document>) -> Result<bool, EngineError>,
    P: Fn(&Expr, &Document) -> Result<bool, EngineError>,
    J: Fn(&Document, &String) -> Option<Vec<u8>>,
    M: Fn(&Value, &Value) -> Option<Rank>,
    T: Fn(&Value) -> Option<i64>,
    Z: Fn(&AggFunc, &AggArg, &Vec<&Document>, AggOutcome) -> Result<Value, EngineError>,
    L: Fn(&Document, &String) -> Value,
    O: Fn(&Value, &Value) -> Rank,
    X: Fn(&Value, &Value) -> Rank,
>(
    c: &mut C,
    s: &Semantics<F, G, K, D, A, H, P, J, M, T, Z>,
    x: &Scoring<L, O, X>,
    sel: &Select,
    defaults: &HighlightOpts,
) -> (r: Result<ResultSet, EngineError>)
    requires
        sound(*s),
        scores_soundly(*x),
        sel.items@.len() <= usize::MAX,
    ensures
        final(c).acknowledged() == old(c).acknowledged(),
        result_is(r, search_result(*old(c), *s, *x, *sel, defaults@)),
{
    let plan = match plan_search_select(sel, defaults) {
        Err(e) => {
            return Err(e);
        },
        Ok(plan) => plan,
    };
    let table = sel.from.as_str();
    proof {
        lemma_strategy(*sel, defaults@, plan_view(plan));
    }
    if let Some(values) = &sel.after {
        return run_search_after(c, s, x, sel, values, &plan.query, &plan.residual, defaults);
    }
    let docs = if let Some(rr) = &sel.rerank {
        let hits = match c.search(
            table,
            &plan.query,
            Some(rr.top),
            &plan.residual,
            &plan.highlights,
        ) {
            Err(e) => {
                return Err(e);
            },
            Ok(hits) => hits,
        };
        match apply_rerank(&*c, x, rr, &plan.query, documents_of(hits)) {
            Err(e) => {
                return Err(e);
            },
            Ok(docs) => docs,
        }
    } else {
        match plan.strategy {
            SearchStrategy::GroupTop => match c.search(
                table,
                &plan.query,
                Some(u64::MAX),
                &plan.residual,
                &plan.highlights,
            ) {
                Err(e) => {
                    return Err(e);
                },
                Ok(hits) => {
                    proof {
                        lemma_hits_wf(hits@);
                    }
                    scored_docs(rows_by_score(hits))
                },
            },
            SearchStrategy::GroupedInIndex | SearchStrategy::GroupedRows => {
                if let SearchStrategy::GroupedInIndex = plan.strategy {
                    if let Some((agg, outs)) = map_search_aggregate(sel) {
                        proof {
                            let (g, items) = index_aggregate(*sel)->0;
                            outputs_read_requested_metrics(sel.items@, g);
                            assert(metric_views(agg.metrics@).len() == agg.metrics@.len());
                        }
                        match c.search_aggregate(table, &plan.query, &agg) {
                            Err(e) => {
                                return Err(e);
                            },
                            Ok(Some(rows)) => {
                                return Ok(finish_in_index(sel, &outs, &rows, agg.metrics.len()));
                            },
                            Ok(None) => {},
                        }
                    }
                }
                match c.search(table, &plan.query, None, &plan.residual, &plan.highlights) {
                    Err(e) => {
                        return Err(grouped_fallback_error(e));
                    },
                    Ok(hits) => documents_of(hits),
                }
            },
            SearchStrategy::Unordered => match c.search(
                table,
                &plan.query,
                None,
                &plan.residual,
                &plan.highlights,
            ) {
                Err(e) => {
                    return Err(e);
                },
                Ok(hits) => {
                    proof {
                        lemma_hits_wf(hits@);
                    }
                    scored_docs(rows_by_score(hits))
                },
            },
            SearchStrategy::Ranked { k } => match c.search(
                table,
                &plan.query,
                Some(k),
                &plan.residual,
                &plan.highlights,
            ) {
                Err(e) => {
                    return Err(e);
                },
                Ok(hits) => {
                    proof {
                        lemma_hits_wf(hits@);
                        lemma_sorted_wf(by_score(hits@), crate::paging::page_order(x.order, true));
                    }
                    scored_docs(sort_page(&x.order, true, rows_by_score(hits)))
                },
            },
            _ => match sorted_docs(c, s, x, sel, &plan) {
                Err(e) => {
                    return Err(e);
                },
                Ok(docs) => docs,
            },
        }
    };
    let none = NameSet::new();
    proof {
        assert(none@ =~= Set::<Seq<char>>::empty());
    }
    show(s, sel, docs, false, &none, true)
}

/// The documents of a search query that is ordered by something else than its
/// score.
fn sorted_docs<
    C: SearchCluster,
    F: Fn(&Expr, &Document) -> Result<Value, EngineError>,
    G: Fn(&Value, &Value) -> Rank,
    K: Fn(&Vec<&Value>) -> Vec<u8>,
    D: Fn(&Vec<&Value>) -> Vec<u8>,
    A: Fn(&Expr, &Vec<&Document>) -> Result<Value, EngineError>,
    H: Fn(&Expr, &Vec<&Document>) -> Result<bool, EngineError>,
    P: Fn(&Expr, &Document) -> Result<bool, EngineError>,
    J: Fn(&Document, &String) -> Option<Vec<u8>>,
    M: Fn(&Value, &Value) -> Option<Rank>,
    T: Fn(&Value) -> Option<i64>,
    Z: Fn(&AggFunc, &AggArg, &Vec<&Document>, AggOutcome) -> Result<Value, EngineError>,
    L: Fn(&Document, &String) -> Value,
    O: Fn(&Value, &Value) -> Rank,
    X: Fn(&Value, &Value) -> Rank,
>(
    c: &mut C,
    s: &Semantics<F, G, K, D, A, H, P, J, M, T, Z>,
    x: &Scoring<L, O, X>,
    sel: &Select,
    plan: &SearchPlan<'_>,
) -> (r: Result<Vec<Document>, EngineError>)
    requires
        sound(*s),
        scores_soundly(*x),
        plan.strategy is Sorted || plan.strategy is Gather,
        plan.strategy is Sorted ==> sel.order_by@.len() == 1 && sel.order_by@[0].expr is Column,
    ensures
        answers_alike(*old(c), *final(c)),
        ({
            let every = asked(plan.query, None, plan.residual@, plan.highlights@);
            let v = match plan.strategy {
                SearchStrategy::Sorted { want, descending } => sorted_hits(
                    *old(c),
                    s.rank,
                    x.at,
                    *sel,
                    want,
                    descending,
                    every,
                ),
                _ => gathered_hits(*old(c), s.rank, sel.from@, every),
            };
            match r {
                Ok(docs) => v == Ok::<Seq<Fields>, ErrorView>(all_docs(docs@)) && docs_wf(docs@),
                Err(e) => v == Err::<Seq<Fields>, ErrorView>(e@),
            }
        }),
{
    let table = sel.from.as_str();
    if let SearchStrategy::Sorted { want, descending } = plan.strategy {
        if let Expr::Column(col) = &sel.order_by[0].expr {
            match c.search_sorted(
                table,
                &plan.query,
                col,
                descending,
                want,
                &plan.residual,
                &plan.highlights,
            ) {
                Err(e) => {
                    return Err(e);
                },
                Ok(Some(rows)) => {
                    let ghost got = rows@;
                    let keyed = rows_by_column(x, col, rows);
                    proof {
                        assert forall|i: int| 0 <= i < keyed@.len() implies doc_wf(
                            (#[trigger] keyed@[i]).2,
                        ) by {
                            assert(doc_wf(got[i].1));
                        }
                        lemma_sorted_wf(keyed@, crate::paging::page_order(s.rank, descending));
                    }
                    return Ok(plain_docs(sort_page(&s.rank, descending, keyed)));
                },
                Ok(None) => {},
            }
        }
    }
    gather_hits(c, s, x, table, &plan.query, &plan.residual, &plan.highlights)
}

} // verus!
