use skaidb_engine::ast::{
    AggArg, AggFunc, BinaryOp, Expr, Join, JoinKind, Nearest, OrderKey, Rerank, Rrf, Select,
    SelectItem, UnaryOp,
};
use skaidb_engine::catalog::{Catalog, SearchIndexDef};
use skaidb_engine::database::Database;
use skaidb_engine::ddl_search::CreateSearchIndex;
use skaidb_engine::ddl_table::CreateTable;
use skaidb_engine::ddl_vector::{CreateVectorIndex, VectorFacts};
use skaidb_engine::error::EngineError;
use skaidb_engine::highlight::{collect_highlights, parse_highlight_args, HighlightOpts};
use skaidb_engine::hits::{
    check_embedded, check_rerank_scores, check_reranker, distinct_candidates,
    explain_score_rows, fuse_legs, highlight_field, ranked_order, refresh_due, resolve_hits,
    resolve_query_vector, search_fetch, search_index_fields, suggest_column, vector_fetch, FieldKind, QueryVector, Suggestion,
};
use skaidb_engine::hlc::Hlc;
use skaidb_engine::order::Rank;
use skaidb_engine::projection::NameSet;
use skaidb_engine::search::{
    combine_queries, filter_search_query, is_pure_search, is_search_func, search_query_from_func,
    select_uses_search, split_search_filter, SearchQuery,
};
use skaidb_engine::search_plan::{
    after_step, check_after, check_rerank, finish_agg_pushdown, first_after_fetch,
    grouped_fallback_error, is_blank, map_search_aggregate, nearest_k, parse_after_cursor,
    plan_hybrid_select,
    plan_search_after, plan_search_select, rerank_doc_text, rerank_order, rerank_own_fields,
    rerank_query_text, strictly_after, too_deep_error, AfterOrder, AfterStep, AggGroupBy,
    AggMetricFunc, AggOut, AggRow, SearchStrategy,
};
use skaidb_engine::show::Cell;
use skaidb_engine::value::{Document, Value};

fn s(x: &str) -> String {
    x.to_string()
}

fn strings(xs: &[&str]) -> Vec<String> {
    xs.iter().map(|x| x.to_string()).collect()
}

fn col(path: &str) -> Expr {
    Expr::Column(s(path))
}

fn num(n: i64) -> Expr {
    Expr::Literal(Value::Int(n))
}

fn text(t: &str) -> Expr {
    Expr::Literal(Value::String(s(t)))
}

fn call(name: &str, args: Vec<Expr>) -> Expr {
    Expr::Func { name: s(name), args }
}

fn matching(c: &str, t: &str) -> Expr {
    call("match", vec![col(c), text(t)])
}

fn binary(op: BinaryOp, left: Expr, right: Expr) -> Expr {
    Expr::Binary { op, left: Box::new(left), right: Box::new(right) }
}

fn not(e: Expr) -> Expr {
    Expr::Unary { op: UnaryOp::Not, expr: Box::new(e) }
}

fn is(c: &str, n: i64) -> Expr {
    binary(BinaryOp::Eq, col(c), num(n))
}

fn item(expr: Expr) -> SelectItem {
    SelectItem::Expr { expr, alias: None }
}

fn searching(filter: Expr) -> Select {
    Select {
        distinct: false,
        items: vec![SelectItem::Wildcard],
        from: s("t"),
        from_alias: s("t"),
        joins: Vec::new(),
        filter: Some(filter),
        group_by: Vec::new(),
        group_top: None,
        having: None,
        order_by: Vec::new(),
        limit: None,
        offset: None,
        limit_param: None,
        offset_param: None,
        set_ops: Vec::new(),
        nearest: None,
        rrf: None,
        rerank: None,
        after: None,
    }
}

fn defaults() -> HighlightOpts {
    HighlightOpts {
        max_chars: 150,
        pre_tag: s("<b>"),
        post_tag: s("</b>"),
        no_match_size: 0,
        fragments: 1,
    }
}

fn by(expr: Expr, descending: bool) -> OrderKey {
    OrderKey { expr, descending }
}

fn score() -> Expr {
    call("score", Vec::new())
}

fn type_error<T>(r: Result<T, EngineError>) -> String {
    match r {
        Err(EngineError::Type(m)) => m,
        Err(e) => panic!("another error: {e:?}"),
        Ok(_) => panic!("no error"),
    }
}

fn unsupported<T>(r: Result<T, EngineError>) -> String {
    match r {
        Err(EngineError::Unsupported(m)) => m,
        Err(e) => panic!("another error: {e:?}"),
        Ok(_) => panic!("no error"),
    }
}

/// A query in a short notation.
fn shown(q: &SearchQuery) -> String {
    let f = |f: &Option<String>| f.clone().unwrap_or(s("*"));
    let list = |qs: &Vec<SearchQuery>| qs.iter().map(shown).collect::<Vec<_>>().join(" ");
    match q {
        SearchQuery::Match { field, text } => format!("{}:{text}", f(field)),
        SearchQuery::Phrase { field, text, slop } => format!("{}:\"{text}\"~{slop}", f(field)),
        SearchQuery::Fuzzy { field, text, distance } => format!("{}:{text}~{distance}", f(field)),
        SearchQuery::Prefix { field, text } => format!("{}:{text}*", f(field)),
        SearchQuery::Wildcard { field, pattern } => format!("{}:w/{pattern}/", f(field)),
        SearchQuery::Regexp { field, pattern } => format!("{}:/{pattern}/", f(field)),
        SearchQuery::MoreLikeThis { field, text } => format!("{}:like {text}", f(field)),
        SearchQuery::QueryString(t) => format!("query {t}"),
        SearchQuery::All(qs) => format!("(all {})", list(qs)),
        SearchQuery::Any(qs) => format!("(any {})", list(qs)),
        SearchQuery::Not(q) => format!("(not {})", shown(q)),
        SearchQuery::MultiMatch { fields, text, term_centric } => {
            format!("{}:{text} {}", fields.join(","), if *term_centric { "cross" } else { "best" })
        }
        SearchQuery::Boosted { required, optional } => {
            format!("(boost {} by {})", shown(required), list(optional))
        }
    }
}

fn query(name: &str, args: Vec<Expr>) -> Result<String, EngineError> {
    search_query_from_func(name, &args).map(|q| shown(&q))
}

#[test]
fn every_search_function_is_read() {
    assert_eq!(query("match", vec![col("b"), text("x y")]).unwrap(), "b:x y");
    assert_eq!(query("match_phrase", vec![col("b"), text("x y")]).unwrap(), "b:\"x y\"~0");
    assert_eq!(query("match_phrase", vec![col("b"), text("x"), num(2)]).unwrap(), "b:\"x\"~2");
    assert_eq!(query("fuzzy", vec![col("b"), text("x")]).unwrap(), "b:x~1");
    assert_eq!(query("fuzzy", vec![col("b"), text("x"), num(2)]).unwrap(), "b:x~2");
    assert_eq!(query("match_prefix", vec![col("b"), text("x")]).unwrap(), "b:x*");
    assert_eq!(query("wildcard", vec![col("b"), text("x?")]).unwrap(), "b:w/x?/");
    assert_eq!(query("regexp", vec![col("b"), text("x.")]).unwrap(), "b:/x./");
    assert_eq!(query("more_like_this", vec![col("b"), text("x")]).unwrap(), "b:like x");
    assert_eq!(query("search", vec![text("a AND b")]).unwrap(), "query a AND b");
    assert_eq!(
        query("match_cross", vec![col("a"), col("b"), text("x")]).unwrap(),
        "a,b:x cross"
    );
    assert_eq!(query("match_best", vec![col("a"), col("b"), text("x")]).unwrap(), "a,b:x best");
    assert_eq!(
        query("boosted", vec![matching("b", "x"), matching("b", "y")]).unwrap(),
        "(boost b:x by b:y)"
    );
}

#[test]
fn search_functions_check_their_arguments() {
    let e = |name: &str, args: Vec<Expr>| type_error(query(name, args));
    assert_eq!(e("match", vec![col("b")]), "MATCH(column, 'text') takes exactly two arguments");
    assert_eq!(
        e("match", vec![num(1), text("x")]),
        "MATCH(column, 'text') takes a column as its first argument"
    );
    assert_eq!(
        e("match", vec![col("b"), num(1)]),
        "MATCH(column, 'text') takes a string literal as its query text"
    );
    assert_eq!(
        e("match_phrase", vec![col("b")]),
        "MATCH_PHRASE(column, 'text' [, slop]) takes two or three arguments"
    );
    assert_eq!(
        e("match_phrase", vec![col("b"), text("x"), num(-1)]),
        "MATCH_PHRASE slop must be a non-negative integer literal"
    );
    assert_eq!(
        e("match_phrase", vec![col("b"), text("x"), num(i64::MAX)]),
        "MATCH_PHRASE slop is too large"
    );
    assert_eq!(
        e("fuzzy", vec![col("b"), text("x"), num(256)]),
        "FUZZY distance is too large"
    );
    assert_eq!(
        e("fuzzy", vec![col("b")]),
        "FUZZY(column, 'text' [, distance]) takes two or three arguments"
    );
    assert_eq!(
        e("match_prefix", Vec::new()),
        "MATCH_PREFIX(column, 'prefix') takes exactly two arguments"
    );
    assert_eq!(
        e("wildcard", Vec::new()),
        "WILDCARD(column, 'pattern') takes exactly two arguments"
    );
    assert_eq!(e("regexp", Vec::new()), "REGEXP(column, 'pattern') takes exactly two arguments");
    assert_eq!(
        e("more_like_this", Vec::new()),
        "MORE_LIKE_THIS(column, 'text') takes exactly two arguments"
    );
    assert_eq!(e("search", Vec::new()), "SEARCH('query') takes exactly one string argument");
    assert_eq!(
        e("match_cross", Vec::new()),
        "MATCH_CROSS(column, ..., 'text') takes columns then the query text"
    );
    assert!(e("match_cross", vec![col("a"), text("x")]).contains("needs at least two columns"));
    assert_eq!(
        e("boosted", Vec::new()),
        "BOOSTED(required, optional...) takes at least one search predicate"
    );
    assert!(e("boosted", vec![matching("b", "x")]).contains("at least one optional predicate"));
    assert!(e("boosted", vec![matching("b", "x"), is("a", 1)])
        .starts_with("BOOSTED() arguments must be search predicates"));
    assert_eq!(e("lev", Vec::new()), "unknown search function lev()");
    assert!(is_search_func("regexp") && !is_search_func("lower"));
}

#[test]
fn a_filter_is_split_into_searches_and_the_rest() {
    let f = Some(binary(
        BinaryOp::And,
        binary(BinaryOp::And, matching("b", "x"), is("a", 1)),
        not(matching("b", "y")),
    ));
    let split = split_search_filter(&f).unwrap();
    assert_eq!(split.residual.len(), 1);
    let got: Vec<String> = split.queries.iter().map(shown).collect();
    assert_eq!(got, vec!["b:x", "(not b:y)"]);
    assert_eq!(shown(&combine_queries(split.queries).unwrap()), "(all b:x (not b:y))");
    assert!(combine_queries(Vec::new()).is_none());
    let either = Some(binary(BinaryOp::Or, matching("b", "x"), matching("b", "y")));
    assert_eq!(shown(&filter_search_query(&either).unwrap().unwrap()), "(any b:x b:y)");
    let mixed = Some(binary(BinaryOp::Or, matching("b", "x"), is("a", 1)));
    assert!(unsupported(split_search_filter(&mixed).map(|_| ()))
        .starts_with("search predicates compose with AND/OR/NOT among themselves"));
    assert!(filter_search_query(&Some(is("a", 1))).unwrap().is_none());
    assert!(is_pure_search(&not(matching("b", "x"))) && !is_pure_search(&is("a", 1)));
    assert!(select_uses_search(&searching(matching("b", "x"))));
    assert!(!select_uses_search(&searching(is("a", 1))));
}

#[test]
fn highlights_are_read_from_the_select_list() {
    let (c, o) = parse_highlight_args(&vec![col("b")], &defaults()).unwrap();
    assert_eq!((c.as_str(), o.max_chars, o.fragments), ("b", 150, 1));
    let (_, o) = parse_highlight_args(
        &vec![col("b"), num(80), text("<i>"), text("</i>"), num(20), num(3)],
        &defaults(),
    )
    .unwrap();
    assert_eq!((o.max_chars, o.no_match_size, o.fragments), (80, 20, 3));
    assert_eq!((o.pre_tag.as_str(), o.post_tag.as_str()), ("<i>", "</i>"));
    for bad in [
        Vec::new(),
        vec![num(1)],
        vec![col("b"), num(0)],
        vec![col("b"), num(1), text("<i>")],
        vec![col("b"), num(1), text("a"), text("b"), num(0), num(11)],
    ] {
        assert!(type_error(parse_highlight_args(&bad, &defaults())).starts_with("HIGHLIGHT(column"));
    }
    let mut sel = searching(matching("b", "x"));
    sel.items = vec![
        item(call("highlight", vec![col("b")])),
        item(call("highlight", vec![col("b")])),
        item(call("highlight", vec![col("c")])),
    ];
    let reqs = collect_highlights(&sel, &defaults()).unwrap();
    assert_eq!(reqs.len(), 2);
    sel.items.push(item(call("highlight", vec![col("b"), num(9)])));
    assert_eq!(
        type_error(collect_highlights(&sel, &defaults())),
        "conflicting HIGHLIGHT options for column 'b'"
    );
    assert_eq!(highlight_field("b"), "_highlight_b");
}

#[test]
fn a_search_is_planned_by_its_clauses() {
    let plan = |sel: &Select| plan_search_select(sel, &defaults()).map(|p| p.strategy);
    let base = || searching(matching("b", "x"));
    assert!(matches!(plan(&base()), Ok(SearchStrategy::Unordered)));
    let mut sel = base();
    sel.order_by.push(by(score(), true));
    assert_eq!(unsupported(plan(&sel)), "ORDER BY score() requires LIMIT");
    sel.limit = Some(5);
    sel.offset = Some(2);
    assert!(matches!(plan(&sel), Ok(SearchStrategy::Ranked { k: 7 })));
    sel.order_by[0].descending = false;
    assert_eq!(
        unsupported(plan(&sel)),
        "score() ordering must be exactly ORDER BY score() DESC"
    );
    sel.order_by[0] = by(col("date"), true);
    assert!(matches!(plan(&sel), Ok(SearchStrategy::Sorted { want: 7, descending: true })));
    sel.limit = None;
    assert!(matches!(plan(&sel), Ok(SearchStrategy::Gather)));
    let mut sel = base();
    sel.distinct = true;
    assert_eq!(unsupported(plan(&sel)), "MATCH()/SEARCH() cannot be combined with DISTINCT");
    let mut sel = base();
    sel.joins.push(Join { kind: JoinKind::Cross, table: s("u"), alias: s("u"), on: None });
    assert_eq!(unsupported(plan(&sel)), "MATCH()/SEARCH() cannot be combined with JOIN or UNION");
    let mut sel = base();
    sel.nearest = Some(Nearest { path: s("e"), query: col("q"), k: num(1) });
    assert_eq!(unsupported(plan(&sel)), "MATCH()/SEARCH() cannot be combined with NEAREST");
    let mut sel = searching(is("a", 1));
    sel.items = vec![item(score())];
    assert_eq!(
        type_error(plan(&sel)),
        "score() is only valid in a query with a MATCH()/SEARCH() predicate"
    );
}

fn rerank(top: u64, query: Option<&str>) -> Rerank {
    Rerank { top, query: query.map(s), column: None, model: None }
}

#[test]
fn a_rerank_checks_its_statement_and_finds_its_text() {
    let mut sel = searching(matching("b", "x"));
    sel.rerank = Some(rerank(1000, None));
    assert!(check_rerank(&sel).is_ok());
    sel.rerank = Some(rerank(1001, None));
    assert!(matches!(
        check_rerank(&sel),
        Err(EngineError::ResourceLimit(m)) if m == "RERANK TOP is capped at 1000 candidates"
    ));
    sel.order_by.push(by(col("a"), false));
    assert_eq!(
        unsupported(check_rerank(&sel)),
        "RERANK results are ordered by the reranker; ORDER BY is not supported"
    );
    sel.group_by.push(col("a"));
    assert_eq!(
        unsupported(check_rerank(&sel)),
        "RERANK cannot be combined with GROUP BY or aggregates"
    );
    let q = combine_queries(vec![
        search_query_from_func("match", &vec![col("b"), text("red")]).unwrap(),
        search_query_from_func("match", &vec![col("b"), text("fox")]).unwrap(),
    ])
    .unwrap();
    assert_eq!(rerank_query_text(&rerank(5, None), &q).unwrap(), "red fox");
    assert_eq!(rerank_query_text(&rerank(5, Some("own")), &q).unwrap(), "own");
    let blank = search_query_from_func("match", &vec![col("b"), text(" \t\u{3000}")]).unwrap();
    assert!(type_error(rerank_query_text(&rerank(5, None), &blank))
        .starts_with("RERANK could not derive a query text"));
    // The clause's own text is taken as it stands.
    assert_eq!(rerank_query_text(&rerank(5, Some(" ")), &blank).unwrap(), " ");
    assert!(is_blank("") && is_blank(" \t\u{a0}\u{2003}\u{3000}") && !is_blank(" \u{200b} "));
    let (a, b, none) = (s("a"), s("b"), s(""));
    assert_eq!(rerank_doc_text(&vec![&a, &none, &b]), "a\nb");
    assert_eq!(rerank_doc_text(&Vec::new()), " ");
    let long = "ä".repeat(10_000);
    let cut = rerank_doc_text(&vec![&long]);
    assert_eq!(cut.len(), 4000);
    assert_eq!(rerank_order(&vec![3, 9, 9, 1]), vec![1, 2, 0, 3]);
    let mut d = Document::new();
    d.put_field(s("z"), Value::String(s("last")));
    d.put_field(s("a"), Value::String(s("first")));
    d.put_field(s("n"), Value::Int(1));
    d.put_field(s("_highlight_a"), Value::String(s("hl")));
    assert_eq!(rerank_own_fields(&d), vec!["first", "last"]);
}

#[test]
fn keyset_pages_check_their_statements() {
    let mut sel = searching(matching("b", "x"));
    sel.after = Some(vec![num(3), num(7)]);
    assert_eq!(unsupported(check_after(&sel)), "AFTER requires LIMIT (the page size)");
    sel.limit = Some(10);
    assert_eq!(check_after(&sel).unwrap(), 10);
    let cursor = vec![num(3), num(7)];
    let (limit, sort, key) = parse_after_cursor(&sel, &cursor).unwrap();
    assert_eq!(limit, 10);
    assert!(matches!(sort, Expr::Literal(Value::Int(3))));
    assert!(matches!(key, Expr::Literal(Value::Int(7))));
    let short = vec![num(3)];
    assert_eq!(
        type_error(parse_after_cursor(&sel, &short).map(|_| ())),
        "AFTER takes exactly (last sort value, last primary-key value)"
    );
    sel.offset = Some(1);
    assert!(unsupported(check_after(&sel)).starts_with("AFTER is a keyset cursor"));
    sel.offset = None;
    sel.rerank = Some(rerank(5, None));
    assert!(unsupported(check_after(&sel)).starts_with("AFTER cannot be combined with RERANK"));
    sel.rerank = None;
    sel.distinct = true;
    assert_eq!(
        unsupported(check_after(&sel)),
        "AFTER cannot be combined with GROUP BY, aggregates, or DISTINCT"
    );
}

#[test]
fn a_keyset_page_is_planned() {
    let plan = |sel: &Select, sort: &Value, pk: &Value, columns: usize| {
        plan_search_after(sel, sort, pk, columns, &defaults()).map(|p| match p.order {
            AfterOrder::Score => s("score"),
            AfterOrder::Column { col, descending } => format!("{col} {descending}"),
        })
    };
    let mut sel = searching(matching("b", "x"));
    sel.limit = Some(10);
    let (one, f, null) = (Value::Int(1), Value::Float(0x3ff0_0000_0000_0000), Value::Null);
    assert!(unsupported(plan(&sel, &one, &one, 1)).starts_with("AFTER requires ORDER BY score()"));
    sel.order_by.push(by(score(), true));
    assert_eq!(plan(&sel, &f, &one, 1).unwrap(), "score");
    let word = Value::String(s("x"));
    assert_eq!(
        type_error(plan(&sel, &word, &one, 1)),
        "AFTER with ORDER BY score() takes a numeric score cursor"
    );
    assert_eq!(
        type_error(plan(&sel, &f, &null, 1)),
        "AFTER primary-key value must not be NULL"
    );
    assert_eq!(
        unsupported(plan(&sel, &f, &one, 2)),
        "AFTER requires a single-column primary key (the cursor tie-break)"
    );
    sel.order_by[0] = by(col("date"), true);
    assert_eq!(plan(&sel, &word, &one, 1).unwrap(), "date true");
    sel.order_by.push(by(col("x"), false));
    assert!(unsupported(plan(&sel, &word, &one, 1)).starts_with("AFTER supports exactly one ORDER BY key"));
}

#[test]
fn keyset_fetches_double_up_to_the_ceiling() {
    assert_eq!(first_after_fetch(1), 64);
    assert_eq!(first_after_fetch(100), 200);
    assert_eq!(first_after_fetch(u64::MAX), 65536);
    assert_eq!(after_step(64, 64, 3, 10), AfterStep::Deeper(128));
    assert_eq!(after_step(64, 63, 3, 10), AfterStep::Done);
    assert_eq!(after_step(64, 64, 10, 10), AfterStep::Done);
    assert_eq!(after_step(40_000, 40_000, 0, 10), AfterStep::Deeper(65536));
    assert_eq!(after_step(65536, 65536, 0, 10), AfterStep::TooDeep);
    assert!(too_deep_error(true).message().contains("sorted hits"));
    assert!(too_deep_error(false).message().contains("ranked hits"));
    assert!(strictly_after(Rank::Greater, b"a", b"b"));
    assert!(strictly_after(Rank::Equal, b"c", b"b"));
    assert!(!strictly_after(Rank::Equal, b"b", b"b"));
    assert!(!strictly_after(Rank::Less, b"c", b"b"));
}

#[test]
fn hybrid_searches_check_their_statements() {
    let mut sel = searching(matching("b", "x"));
    sel.rrf = Some(Rrf { constant: 60 });
    let plan = |sel: &Select| plan_hybrid_select(sel).map(|(q, rest)| (shown(&q), rest.len()));
    assert_eq!(unsupported(plan(&sel)), "RANK BY RRF requires a NEAREST (vector) clause");
    sel.nearest = Some(Nearest { path: s("e"), query: col("q"), k: num(1) });
    assert_eq!(plan(&sel).unwrap(), (s("b:x"), 0));
    // The bounds on a rerank are those of a plain search.
    sel.rerank = Some(rerank(1000, None));
    assert!(plan(&sel).is_ok());
    sel.rerank = Some(rerank(1001, None));
    assert!(matches!(
        plan(&sel),
        Err(EngineError::ResourceLimit(m)) if m == "RERANK TOP is capped at 1000 candidates"
    ));
    sel.rerank = None;
    sel.after = Some(Vec::new());
    assert!(unsupported(plan(&sel)).starts_with("AFTER is not supported with RANK BY RRF"));
    sel.order_by.push(by(col("a"), false));
    assert!(unsupported(plan(&sel)).starts_with("RANK BY RRF results are ordered by rrf_score()"));
    sel.distinct = true;
    assert!(unsupported(plan(&sel)).starts_with("RANK BY RRF cannot be combined with JOIN"));
    let mut plain = searching(is("a", 1));
    plain.rrf = Some(Rrf { constant: 60 });
    plain.nearest = Some(Nearest { path: s("e"), query: col("q"), k: num(1) });
    assert!(type_error(plan(&plain)).starts_with("RANK BY RRF requires a MATCH()/SEARCH() predicate"));
    assert_eq!(nearest_k(&Value::Int(3)).unwrap(), 3);
    for bad in [Value::Int(0), Value::Int(-1), Value::Null] {
        assert_eq!(type_error(nearest_k(&bad)), "NEAREST k must be a positive integer");
    }
}

#[test]
fn grouped_searches_are_answered_by_the_index() {
    let count = || Expr::Aggregate { func: AggFunc::Count, arg: AggArg::Star };
    let sum = || Expr::Aggregate { func: AggFunc::Sum, arg: AggArg::Expr(Box::new(col("n"))) };
    let mut sel = searching(matching("b", "x"));
    sel.items = vec![item(col("kind")), item(count()), item(sum()), item(count())];
    sel.group_by.push(col("kind"));
    let (req, outs) = map_search_aggregate(&sel).unwrap();
    assert!(matches!(&req.group_by, Some(AggGroupBy::Keyword(c)) if c == "kind"));
    assert_eq!(outs[0], AggOut::GroupKey);
    assert!(matches!(outs[1], AggOut::Metric(_)));
    let at = |o: AggOut| match o {
        AggOut::Metric(i) => req.metrics[i].func,
        AggOut::GroupKey => panic!("a metric"),
    };
    assert_eq!(at(outs[1]), AggMetricFunc::Count);
    assert_eq!(at(outs[2]), AggMetricFunc::Sum);
    assert_eq!(at(outs[3]), AggMetricFunc::Count);
    let n = req.metrics.len();
    let rows: Vec<AggRow> = (0..3)
        .map(|i| AggRow {
            key: Value::Int(i),
            metrics: (0..n as i64).map(|m| Value::Int(10 * i + m)).collect(),
        })
        .collect();
    let out = finish_agg_pushdown(&rows, &outs, Some(2));
    assert_eq!(out.len(), 2);
    assert_eq!(out[1].len(), 4);
    assert!(matches!(out[1][0], Value::Int(1)));
    sel.having = Some(is("kind", 1));
    assert!(map_search_aggregate(&sel).is_none());
    let e = grouped_fallback_error(EngineError::ResourceLimit(s("scan budget")));
    assert!(e.message().starts_with("scan budget [grouped search fallback:"));
    let e = grouped_fallback_error(EngineError::Type(s("other")));
    assert_eq!(e.message(), "other");
}

fn db() -> Database {
    let at = |n: u64| Hlc::new(n, 0);
    let mut db = Database::new(Catalog::new());
    db.create_table(
        CreateTable {
            name: s("t"),
            if_not_exists: false,
            primary_key: strings(&["id"]),
            ttl_ms: None,
            memory: false,
            replication: None,
            nodes: Vec::new(),
            witness: false,
        },
        at(1),
    )
    .unwrap();
    db.create_search_index(
        CreateSearchIndex {
            name: s("f"),
            table: s("t"),
            paths: strings(&["body", "title"]),
            options: Vec::new(),
            if_not_exists: false,
        },
        Ok(()),
        at(2),
    )
    .unwrap();
    db.create_vector_index(
        CreateVectorIndex {
            name: s("v"),
            table: s("t"),
            path: s("emb"),
            metric: s("l2"),
            dim: Some(3),
            embed: false,
            quantized: true,
            if_not_exists: false,
        },
        VectorFacts { embedder_dim: None, metric_known: true, inferred_dim: None },
        at(3),
    )
    .unwrap();
    db
}

fn covers(d: &SearchIndexDef, c: &String) -> bool {
    d.paths.contains(c)
}

#[test]
fn the_search_index_that_covers_the_query_is_found() {
    let db = db();
    let q = |c: &str| search_query_from_func("match", &vec![col(c), text("x")]).unwrap();
    assert_eq!(db.search_index_for_query("t", &q("title"), &covers).unwrap(), "f");
    assert_eq!(
        unsupported(db.search_index_for_query("t", &q("tags"), &covers)),
        "no search index on table 't' covers column 'tags'"
    );
    assert_eq!(
        unsupported(db.search_index_for_query("u", &q("title"), &covers)),
        "table 'u' has no search index"
    );
}

#[test]
fn the_nearest_rows_come_by_their_exact_distances() {
    let mut db = db();
    let read = |k: &Vec<u8>| (k.as_slice() != b"gone").then(|| k.clone());
    let decide = |_: &Expr, d: &Vec<u8>| match d.as_slice() {
        b"odd" => Err(EngineError::Type(s("no"))),
        b"not" => Ok(false),
        _ => Ok(true),
    };
    // The graph's distances are rounded; "c" has no exact one.
    let exact = |d: &Vec<u8>| match d.as_slice() {
        b"a" => Some(9),
        b"b" | b"d" => Some(5),
        _ => None,
    };
    let found = |n: usize| {
        assert_eq!(n, 12);
        let hits = [("a", 1), ("gone", 2), ("odd", 2), ("not", 2), ("d", 3), ("b", 4), ("c", 6)];
        hits.iter().map(|(k, x)| (k.as_bytes().to_vec(), *x)).collect::<Vec<_>>()
    };
    let keys = |rows: Vec<(Vec<u8>, Vec<u8>, i64)>| -> Vec<(String, i64)> {
        rows.into_iter().map(|(k, _, x)| (String::from_utf8(k).unwrap(), x)).collect()
    };
    let filter = Some(col("x"));
    assert!(db.vector_search("v", true, true, 3, &filter, &found, &read, &decide, &exact).is_err());
    db.finish_vector_backfill("v");
    let rows = db.vector_search("v", true, true, 3, &filter, &found, &read, &decide, &exact);
    assert_eq!(keys(rows.unwrap()), vec![(s("b"), 5), (s("d"), 5), (s("c"), 6)]);
    let rows = db.vector_search("v", true, true, 3, &None, &found, &read, &decide, &exact);
    assert_eq!(keys(rows.unwrap()), vec![(s("not"), 2), (s("odd"), 2), (s("b"), 5)]);
    assert!(matches!(
        db.vector_search("v", true, false, 3, &None, &found, &read, &decide, &exact),
        Err(EngineError::TableNotFound(_))
    ));
}

#[test]
fn vector_searches_check_their_index() {
    let mut db = db();
    assert_eq!(
        unsupported(db.vector_index_ready("v")),
        "vector index 'v' is rebuilding — retry shortly"
    );
    db.finish_vector_backfill("v");
    assert!(db.vector_index_ready("v").is_ok());
    assert!(db.check_vector_search("v", true, true).is_ok());
    assert!(matches!(
        db.check_vector_search("x", false, true),
        Err(EngineError::IndexNotFound(_))
    ));
    assert_eq!(
        unsupported(db.check_embed_query("t", "other", true)),
        "no vector index on t (other)"
    );
    assert_eq!(
        type_or_unsupported(db.check_embed_query("t", "emb", true)),
        "NEAREST on 'emb' takes a query vector; a string query needs a managed EMBED index"
    );
    assert_eq!(db.vector_index_rescore("v"), Some((s("emb"), 3, s("l2"), true)));
    assert_eq!(vector_fetch(true, 10), 40);
    assert_eq!(vector_fetch(true, usize::MAX), usize::MAX);
    assert_eq!(vector_fetch(false, 10), 10);
    assert!(matches!(resolve_query_vector(&Value::String(s("x"))), Ok(QueryVector::Text(_))));
    let nums = Value::Array(vec![Value::Int(1)]);
    assert!(matches!(resolve_query_vector(&nums), Ok(QueryVector::Numbers(_))));
    assert_eq!(
        type_error(resolve_query_vector(&Value::Int(1)).map(|_| ())),
        "NEAREST query must be a numeric array, or a string for a managed EMBED index"
    );
}

fn type_or_unsupported(r: Result<(), EngineError>) -> String {
    match r {
        Err(e) => e.message().clone(),
        Ok(_) => panic!("no error"),
    }
}

#[test]
fn inference_replies_are_checked() {
    assert!(check_embedded(1).is_ok());
    assert_eq!(type_error(check_embedded(0)), "embedder returned no vector");
    assert!(check_reranker(true).is_ok());
    assert_eq!(
        unsupported(check_reranker(false)),
        "RERANK needs a rerank provider ([inference] rerank_url)"
    );
    assert!(check_rerank_scores(2, 2).is_ok());
    assert_eq!(
        type_or_unsupported(check_rerank_scores(2, 3)),
        "reranker returned 2 scores for 3 documents"
    );
}

fn keys(xs: &[&str]) -> Vec<Vec<u8>> {
    xs.iter().map(|x| x.as_bytes().to_vec()).collect()
}

#[test]
fn two_legs_are_fused_by_rank() {
    let hits = fuse_legs(&keys(&["a", "b"]), &keys(&["b", "c"]));
    let got: Vec<(Vec<u8>, Vec<usize>)> = hits.into_iter().map(|h| (h.key, h.ranks)).collect();
    assert_eq!(got.len(), 3);
    let ranks = |k: &str| {
        got.iter().find(|(x, _)| x == k.as_bytes()).map(|(_, r)| r.clone()).unwrap()
    };
    assert_eq!(ranks("a"), vec![1]);
    assert_eq!(ranks("b"), vec![2, 1]);
    assert_eq!(ranks("c"), vec![2]);
    // Ties fall to the smaller key.
    assert_eq!(ranked_order(&vec![5, 9, 5], &keys(&["z", "b", "a"])), vec![2, 0, 1]);
    assert_eq!(distinct_candidates(&keys(&["b", "a", "b"])), keys(&["b", "a"]));
}

#[test]
fn hits_are_resolved_to_rows() {
    let read = |k: &Vec<u8>| -> Result<Option<i32>, EngineError> {
        match k.as_slice() {
            b"gone" => Ok(None),
            b"bad" => Err(EngineError::Constraint(s("corrupt row"))),
            _ => Ok(Some(k.len() as i32)),
        }
    };
    let scored = |ks: &[&str]| -> Vec<(Vec<u8>, usize)> {
        keys(ks).into_iter().enumerate().map(|(i, k)| (k, i)).collect()
    };
    let rows = resolve_hits(scored(&["a", "gone", "bb", "ccc"]), Some(2), &read).unwrap();
    assert_eq!(rows, vec![(b"a".to_vec(), 1, 0), (b"bb".to_vec(), 2, 2)]);
    assert!(resolve_hits(scored(&["bad"]), None, &read).is_err());
    // A filtered search asks for more than it wants.
    let find = |n: Option<usize>| match n {
        Some(40) => Ok(scored(&["a", "gone", "bb", "ccc"])),
        None => Ok(scored(&["ccc"])),
        _ => Err(EngineError::Constraint(s("unexpected"))),
    };
    let mut db = db();
    let rows = db.search_with_index("f", "t", true, true, Some(10), true, &find, &read).unwrap();
    assert_eq!(rows.len(), 3);
    let rows = db.search_with_index("f", "t", true, true, None, true, &find, &read).unwrap();
    assert_eq!(rows, vec![(b"ccc".to_vec(), 3, 0)]);
    assert!(db.search_with_index("f", "t", true, true, Some(10), false, &find, &read).is_err());
    let sorted = |n: usize| match n {
        2 => Ok(Some(vec![(b"bb".to_vec(), Value::Int(5)), (b"a".to_vec(), Value::Int(6))])),
        _ => Ok(None),
    };
    let rows = db.search_sorted_read("f", "t", true, true, 2, false, &sorted, &read).unwrap().unwrap();
    assert_eq!(rows.iter().map(|r| r.1).collect::<Vec<_>>(), vec![2, 1]);
    assert!(db.search_sorted_read("f", "t", true, true, 2, true, &sorted, &read).unwrap().is_none());
    assert!(db.search_sorted_read("f", "t", false, true, 2, true, &sorted, &read).is_err());
    assert_eq!(search_fetch(10, false), 10);
    assert!(search_fetch(10, true) > 10);
    assert!(refresh_due(true, 100, 100) && !refresh_due(true, 99, 100) && !refresh_due(false, 999, 1));
    assert!(db.check_search("f", "t", true, true).is_ok());
    assert!(matches!(
        db.check_search("f", "t", false, true),
        Err(EngineError::IndexNotFound(_))
    ));
    assert!(matches!(
        db.check_search("f", "t", true, false),
        Err(EngineError::TableNotFound(_))
    ));
    // An index whose catch-up is not done refuses, until it is built anew.
    db.building_searches.add_name(s("d\u{1f}f"));
    db.building_searches.add_name(s("f"));
    assert!(matches!(
        db.search_with_index("d\u{1f}f", "t", true, true, None, true, &find, &read),
        Err(EngineError::Unsupported(m))
            if m == "search index 'f' is rebuilding after restart — retry shortly"
    ));
    let building = db.search_sorted_read("f", "t", true, true, 2, false, &sorted, &read);
    assert!(building.err().unwrap().message().contains("rebuilding"));
    assert!(matches!(
        db.rebuild_search_index("nope", Ok(())),
        Err(EngineError::IndexNotFound(_))
    ));
    let failed = db.rebuild_search_index("f", Err(EngineError::Type(s("no"))));
    assert!(matches!(failed, Err(EngineError::Type(_))));
    assert!(db.check_search("f", "t", true, true).is_err());
    db.rebuild_search_index("f", Ok(())).unwrap();
    assert!(db.check_search("f", "t", true, true).is_ok());
}

#[test]
fn a_node_reads_the_index_that_serves_a_query() {
    let mut db = db();
    let query = filter_search_query(&Some(matching("body", "x"))).unwrap().unwrap();
    let covers = |d: &SearchIndexDef, c: &String| d.paths.contains(c);
    let open = |_: &String| true;
    let shut = |_: &String| false;
    let find = |name: &String, n: Option<usize>| {
        assert_eq!(name, "f");
        let hits = vec![(b"a".to_vec(), 2), (b"b".to_vec(), 1)];
        Ok(hits.into_iter().take(n.unwrap_or(9)).collect::<Vec<_>>())
    };
    let read = |k: &Vec<u8>| Ok((k.as_slice() != b"a").then(|| k.len()));
    let rows = db.search_read("t", &query, Some(5), false, true, &covers, &open, &find, &read);
    assert_eq!(rows.unwrap(), vec![(b"b".to_vec(), 1, 1)]);
    assert_eq!(db.search_local("t", &query, Some(1), &covers, &open, &find).unwrap().len(), 1);
    let groups = |_: &String| Ok(Some(vec![7]));
    assert_eq!(
        db.search_aggregate_read("t", &query, &covers, &open, &groups).unwrap(),
        Some(vec![7])
    );
    assert!(matches!(
        db.search_local("t", &query, None, &covers, &shut, &find),
        Err(EngineError::IndexNotFound(_))
    ));
    let other = filter_search_query(&Some(matching("other", "x"))).unwrap().unwrap();
    assert!(db.search_local("t", &other, None, &covers, &open, &find).is_err());
    assert!(db.search_local("u", &query, None, &covers, &open, &find).is_err());
    // None of them gives a part of its answer while the index catches up.
    db.building_searches.add_name(s("f"));
    let refused = |e: EngineError| e.message().contains("rebuilding");
    let rows = db.search_read("t", &query, None, false, true, &covers, &open, &find, &read);
    assert!(refused(rows.unwrap_err()));
    assert!(refused(db.search_local("t", &query, None, &covers, &open, &find).unwrap_err()));
    let rows = db.search_aggregate_read("t", &query, &covers, &open, &groups);
    assert!(refused(rows.unwrap_err()));
}

#[test]
fn suggestions_are_listed() {
    let fields = vec![(s("body"), FieldKind::Text), (s("size"), FieldKind::Long)];
    assert_eq!(
        search_index_fields(&fields),
        vec![(s("body"), s("text")), (s("size"), s("long"))]
    );
    assert_eq!(suggest_column(None, &fields).unwrap(), "body");
    assert_eq!(suggest_column(Some("tag"), &fields).unwrap(), "tag");
    let two = vec![(s("body"), FieldKind::Text), (s("kind"), FieldKind::Keyword)];
    assert_eq!(
        type_error(suggest_column(None, &two)),
        "SUGGEST needs COLUMN <col> when the index covers several text columns"
    );
    let suggest = |col: &String, text: &str, limit: u64| {
        assert_eq!((col.as_str(), text, limit), ("body", "fx", 3));
        Ok(vec![Suggestion { input: s("fx"), term: s("fox"), distance: 1, doc_freq: 9 }])
    };
    let db = db();
    let l = db.suggest_cmd("f", true, "fx", None, &fields, 3, &suggest).unwrap();
    for (index, open) in [("f", false), ("x", true)] {
        assert!(matches!(
            db.suggest_cmd(index, open, "fx", None, &fields, 3, &suggest),
            Err(EngineError::IndexNotFound(n)) if n == index
        ));
    }
    assert_eq!(l.columns, strings(&["input", "suggestion", "distance", "doc_freq"]));
    assert!(matches!(&l.rows[0][1], Cell::Text(t) if t == "fox"));
    assert!(matches!(l.rows[0][3], Cell::Int(9)));
    let l = explain_score_rows(Some(s("why")));
    assert_eq!(l.columns, strings(&["explanation"]));
    assert_eq!(l.rows.len(), 1);
}

#[test]
fn dirty_vector_indexes_are_snapshotted() {
    let mut db = db();
    // A half-filled index is not saved.
    assert!(db.snapshots_due(&strings(&["v"])).is_empty());
    assert!(!db.has_dirty_vector_indexes(&strings(&["v"])));
    db.finish_vector_backfill("v");
    assert_eq!(db.snapshots_due(&strings(&["v"])), strings(&["v"]));
    assert!(db.has_dirty_vector_indexes(&strings(&["v"])));
    assert!(!db.has_dirty_vector_indexes(&Vec::new()));
    assert!(db.heals_search_index("f", &NameSet::new()));
    let mut open = NameSet::new();
    open.add_name(s("f"));
    assert!(!db.heals_search_index("f", &open));
}
