use skaidb_engine::access::{collect_mode, stamps_cursor, Access, RowCollector, WalkKind, WalkedRow};
use skaidb_engine::access::OrderRequest;
use skaidb_engine::ast::{
    AggArg, AggFunc, BinaryOp, Expr, Join, JoinKind, Nearest, OrderKey, Select, SelectItem, UnaryOp,
};
use skaidb_engine::catalog::{Catalog, SearchIndexDef};
use skaidb_engine::constraints::{
    count_safe_literal, filter_constraints, filter_is_conjunctive, flip_op, split_one_negated_eq,
};
use skaidb_engine::database::Database;
use skaidb_engine::ddl_search::CreateSearchIndex;
use skaidb_engine::ddl_table::CreateTable;
use skaidb_engine::ddl_vector::{CreateVectorIndex, VectorFacts};
use skaidb_engine::error::EngineError;
use skaidb_engine::explain::{explain_select, settle_path, ReadPath, SettledPath};
use skaidb_engine::geo::{geo_predicates, GeoPredicate};
use skaidb_engine::hlc::Hlc;
use skaidb_engine::order::{
    apply_offset_limit, compare_key, order_compare, page_depth, sort_places, Rank, TopK,
};
use skaidb_engine::plan::{
    complement_count, index_key_names, multi_pos, pk_point_key, pk_prefix_scan_range, plan_count,
    plan_covering, plan_for_index, plan_index, settle_choice, CountPlan, IndexChoice,
    IndexPlan,
};
use skaidb_engine::point_keys::{
    global_entry_delta, index_value_tuples, pk_point_keys, plan_global_probe, unique_sorted,
};
use skaidb_engine::projection::NameSet;
use skaidb_engine::select_plan::{
    check_bound_counts, check_nearest, enrich_scan_budget, expr_name, index_order_column,
    output_columns, route_plain, route_select, route_simple, simple_fetch_limit, PlainRoute,
    SelectRoute, SimpleRoute,
};
use skaidb_engine::statement::{Delete, Insert, Statement};
use skaidb_engine::value::Value;

fn s(x: &str) -> String {
    x.to_string()
}

fn strings(xs: &[&str]) -> Vec<String> {
    xs.iter().map(|x| x.to_string()).collect()
}

fn col(path: &str) -> Expr {
    Expr::Column(s(path))
}

fn num(n: i64) -> Expr {
    Expr::Literal(Value::Int(n))
}

fn binary(op: BinaryOp, left: Expr, right: Expr) -> Expr {
    Expr::Binary { op, left: Box::new(left), right: Box::new(right) }
}

fn is(c: &str, n: i64) -> Expr {
    binary(BinaryOp::Eq, col(c), num(n))
}

fn and(a: Expr, b: Expr) -> Expr {
    binary(BinaryOp::And, a, b)
}

fn or(a: Expr, b: Expr) -> Expr {
    binary(BinaryOp::Or, a, b)
}

fn among(c: &str, ns: &[i64]) -> Expr {
    Expr::InList {
        expr: Box::new(col(c)),
        list: ns.iter().map(|n| num(*n)).collect(),
        negated: false,
    }
}

fn key(v: &Value) -> Vec<u8> {
    match v {
        Value::Int(n) => ((*n as u64) ^ (1 << 63)).to_be_bytes().to_vec(),
        Value::String(t) => t.as_bytes().to_vec(),
        _ => Vec::new(),
    }
}

fn named(c: &str, t: &str) -> Expr {
    binary(BinaryOp::Eq, col(c), Expr::Literal(Value::String(s(t))))
}

fn words(t: &[&Value]) -> Vec<String> {
    t.iter()
        .map(|v| match v {
            Value::String(w) => w.clone(),
            _ => panic!("not a string"),
        })
        .collect()
}

fn ints(t: &[&Value]) -> Vec<i64> {
    t.iter()
        .map(|v| match v {
            Value::Int(n) => *n,
            _ => panic!("not an integer"),
        })
        .collect()
}

fn rank(a: &Value, b: &Value) -> Rank {
    match (a, b) {
        (Value::Int(x), Value::Int(y)) if x < y => Rank::Less,
        (Value::Int(x), Value::Int(y)) if x > y => Rank::Greater,
        _ => Rank::Equal,
    }
}

fn select(items: Vec<SelectItem>, from: &str) -> Select {
    Select {
        distinct: false,
        items,
        from: s(from),
        from_alias: s(from),
        joins: Vec::new(),
        filter: None,
        group_by: Vec::new(),
        group_top: None,
        having: None,
        order_by: Vec::new(),
        limit: None,
        offset: None,
        limit_param: None,
        offset_param: None,
        set_ops: Vec::new(),
        nearest: None,
        rrf: None,
        rerank: None,
        after: None,
    }
}

fn star(from: &str) -> Select {
    select(vec![SelectItem::Wildcard], from)
}

fn item(expr: Expr) -> SelectItem {
    SelectItem::Expr { expr, alias: None }
}

fn count_star() -> Expr {
    Expr::Aggregate { func: AggFunc::Count, arg: AggArg::Star }
}

/// A table `t` with key `id`, and indexes on `v` and on `(a, b)`.
fn db() -> Database {
    let at = |n: u64| Hlc::new(n, 0);
    let mut db = Database::new(Catalog::new());
    db.create_table(
        CreateTable {
            name: s("t"),
            if_not_exists: false,
            primary_key: strings(&["id"]),
            ttl_ms: None,
            memory: false,
            replication: None,
            nodes: Vec::new(),
            witness: false,
        },
        at(1),
    )
    .unwrap();
    db.create_index("i_ab", "t", strings(&["a", "b"]), false, false, true, at(2)).unwrap();
    db.create_index("i_v", "t", strings(&["v"]), false, false, true, at(3)).unwrap();
    db.create_index("i_g", "t", strings(&["mail"]), false, true, true, at(4)).unwrap();
    for n in ["i_ab", "i_v", "i_g"] {
        db.finish_index_backfill(n);
    }
    db.finish_global_backfill("i_g", at(5));
    db
}

fn all_open() -> NameSet {
    let mut open = NameSet::new();
    open.add_name(s("i_ab"));
    open.add_name(s("i_v"));
    open
}

#[test]
fn comparisons_bound_their_columns() {
    // a = 1 AND 5 < b AND b <= 9, and a disjunction that bounds nothing.
    let f = Some(and(
        and(is("a", 1), binary(BinaryOp::Lt, num(5), col("b"))),
        and(binary(BinaryOp::LtEq, col("b"), num(9)), or(is("c", 1), is("c", 2))),
    ));
    let cs = filter_constraints(&f, &key);
    assert_eq!(cs.len(), 2);
    assert_eq!(cs[0].col, "a");
    assert_eq!(ints(&[cs[0].eq.unwrap()]), vec![1]);
    assert_eq!(cs[1].col, "b");
    assert!(cs[1].eq.is_none());
    assert_eq!(ints(&[cs[1].lo.unwrap(), cs[1].hi.unwrap()]), vec![5, 9]);
    assert_eq!(flip_op(BinaryOp::Lt), BinaryOp::Gt);
    assert_eq!(flip_op(BinaryOp::Eq), BinaryOp::Eq);
}

#[test]
fn the_tighter_bound_is_kept() {
    let f = Some(and(
        binary(BinaryOp::Gt, col("b"), num(3)),
        binary(BinaryOp::Gt, col("b"), num(7)),
    ));
    let cs = filter_constraints(&f, &key);
    assert_eq!(ints(&[cs[0].lo.unwrap()]), vec![7]);
}

#[test]
fn only_conjunctions_of_safe_literals_are_counted_in_an_index() {
    assert!(filter_is_conjunctive(&and(named("a", "x"), named("b", "y"))));
    assert!(!filter_is_conjunctive(&or(named("a", "x"), named("b", "y"))));
    // A number may be stored as another type of number.
    assert!(!filter_is_conjunctive(&is("a", 1)));
    assert!(count_safe_literal(&Value::Bool(true)));
    assert!(!count_safe_literal(&Value::Int(1)));
    assert!(!count_safe_literal(&Value::Null));
    let unlike = || binary(BinaryOp::NotEq, col("b"), Expr::Literal(Value::String(s("y"))));
    let absent = Expr::IsNull { expr: Box::new(col("b")), negated: false };
    // A bare `!=` leaves NULLs out; its complement would count them.
    assert!(split_one_negated_eq(&and(named("a", "x"), unlike())).is_none());
    let e = and(named("a", "x"), or(unlike(), absent));
    let n = split_one_negated_eq(&e).unwrap();
    assert_eq!(n.col, "b");
    assert_eq!(n.rest.len(), 1);
    assert!(split_one_negated_eq(&is("a", 1)).is_none());
}

#[test]
fn the_primary_key_decides_point_reads() {
    let f = Some(and(is("id", 7), is("v", 1)));
    let cs = filter_constraints(&f, &key);
    assert_eq!(ints(&pk_point_key(&strings(&["id"]), &cs).unwrap()), vec![7]);
    assert!(pk_point_key(&strings(&["id", "x"]), &cs).is_none());
    let (lo, hi) = pk_prefix_scan_range(&strings(&["id", "x"]), &cs).unwrap();
    assert_eq!((ints(&lo), ints(&hi)), (vec![7], vec![7]));
}

#[test]
fn point_keys_are_every_pick_of_the_listed_values() {
    let f = Some(and(among("a", &[1, 2]), among("b", &[3, 4])));
    let ts = pk_point_keys(&strings(&["a", "b"]), &f).unwrap();
    let got: Vec<Vec<i64>> = ts.iter().map(|t| ints(t)).collect();
    assert_eq!(got, vec![vec![1, 3], vec![1, 4], vec![2, 3], vec![2, 4]]);
    assert!(pk_point_keys(&strings(&["a", "c"]), &f).is_none());
    assert!(pk_point_keys(&strings(&["a"]), &None).is_none());
}

#[test]
fn an_index_is_matched_from_its_first_column() {
    let f = Some(and(is("a", 1), binary(BinaryOp::GtEq, col("b"), num(4))));
    let cs = filter_constraints(&f, &key);
    let paths = strings(&["a", "b"]);
    let p = plan_for_index(&paths, &cs, None).unwrap();
    assert_eq!(ints(&p.start.unwrap()), vec![1, 4]);
    assert_eq!(ints(&p.end.unwrap()), vec![1]);
    // Equality on `a`, rows ordered by `b`.
    let p = plan_for_index(&paths, &cs, Some(("b", true))).unwrap();
    assert!(p.sorted && p.reverse);
    // No constraint on the first column: no use without an order.
    let g = Some(is("b", 4));
    assert!(plan_for_index(&paths, &filter_constraints(&g, &key), None).is_none());
    assert!(plan_covering(&paths, &filter_constraints(&g, &key)).is_none());
}

#[test]
fn multikey_components_are_found() {
    assert_eq!(multi_pos(&strings(&["a", "b[]"])), Some(1));
    assert_eq!(multi_pos(&strings(&["a"])), None);
    assert_eq!(index_key_names(&strings(&["a", "b[]"])), strings(&["a", "b"]));
    let arr = Value::Array(vec![Value::Int(1), Value::Int(2), Value::Int(1)]);
    let seven = Value::Int(7);
    let ts = index_value_tuples(vec![&seven, &arr], &strings(&["a", "b[]"]));
    let got: Vec<Vec<i64>> = ts.iter().map(|t| ints(t)).collect();
    assert_eq!(got, vec![vec![7, 1], vec![7, 2], vec![7, 1]]);
    let plain = index_value_tuples(vec![&seven], &strings(&["a"]));
    assert_eq!(plain.len(), 1);
}

#[test]
fn the_best_index_wins() {
    let db = db();
    let f = Some(and(and(is("a", 1), is("b", 2)), is("v", 3)));
    let cs = filter_constraints(&f, &key);
    match plan_index(&db.catalog.indexes, "t", &cs, None, false) {
        IndexChoice::Use(p) => assert_eq!(p.index, "i_ab"),
        _ => panic!("an index serves the filter"),
    }
    assert!(matches!(
        plan_index(&db.catalog.indexes, "u", &cs, None, false),
        IndexChoice::Scan
    ));
    assert!(settle_choice(IndexChoice::Scan, 3).is_none());
}

#[test]
fn a_gather_takes_the_shortest_way() {
    let db = db();
    let kind = |f: &Option<Expr>, order: Option<OrderRequest<'_>>, limited: bool| {
        match db.plan_gather("t", f, false, order, limited, &key).unwrap() {
            Access::Point(_) => "point",
            Access::Points(_) => "points",
            Access::Geo => "geo",
            Access::KeyRange { .. } => "range",
            Access::KeyOrder { .. } => "order",
            Access::Index(IndexChoice::Scan) => "scan",
            Access::Index(_) => "index",
        }
    };
    assert_eq!(kind(&Some(is("id", 1)), None, false), "point");
    assert_eq!(kind(&Some(among("id", &[1, 2])), None, false), "points");
    assert_eq!(kind(&Some(is("v", 1)), None, false), "index");
    assert_eq!(kind(&Some(is("zzz", 1)), None, false), "scan");
    let id = s("id");
    let by_id = || Some(OrderRequest { col: &id, descending: false, exact: true });
    assert_eq!(kind(&None, by_id(), true), "order");
    assert!(matches!(
        db.plan_gather("u", &None, false, None, false, &key),
        Err(EngineError::TableNotFound(_))
    ));
    let geo = Some(is("zzz", 1));
    assert!(matches!(
        db.plan_gather("t", &geo, true, None, false, &key),
        Ok(Access::Geo)
    ));
}

#[test]
fn counts_are_read_from_a_covering_index() {
    let db = db();
    let open = all_open();
    let e = named("v", "x");
    match plan_count(&db.catalog.indexes, &open, "t", &e, &key) {
        CountPlan::Cover(c) => {
            assert_eq!(c.index, "i_v");
            assert_eq!((words(&c.start), words(&c.end)), (strings(&["x"]), strings(&["x"])));
        }
        _ => panic!("the index covers the filter"),
    }
    let unlike = binary(BinaryOp::NotEq, col("v"), Expr::Literal(Value::String(s("x"))));
    let e = or(unlike, Expr::IsNull { expr: Box::new(col("v")), negated: false });
    assert!(matches!(plan_count(&db.catalog.indexes, &open, "t", &e, &key), CountPlan::AllBut(_)));
    let e = or(named("v", "x"), named("v", "y"));
    assert!(matches!(plan_count(&db.catalog.indexes, &open, "t", &e, &key), CountPlan::Stream));
    // A strict comparison leaves its bound out.
    let word = |w: &str| Expr::Literal(Value::String(s(w)));
    let e = binary(
        BinaryOp::And,
        binary(BinaryOp::Gt, col("v"), word("b")),
        binary(BinaryOp::LtEq, col("v"), word("d")),
    );
    match plan_count(&db.catalog.indexes, &open, "t", &e, &key) {
        CountPlan::Cover(c) => {
            assert_eq!((words(&c.start), words(&c.end)), (strings(&["b"]), strings(&["d"])));
            assert!(c.skip_start && !c.skip_end);
        }
        _ => panic!("the index covers the range"),
    }
    // The tighter of two bounds decides whether it is left out.
    let e = binary(
        BinaryOp::And,
        binary(BinaryOp::Gt, col("v"), word("a")),
        binary(BinaryOp::And, binary(BinaryOp::GtEq, col("v"), word("b")), binary(
            BinaryOp::Lt,
            col("v"),
            word("d"),
        )),
    );
    match plan_count(&db.catalog.indexes, &open, "t", &e, &key) {
        CountPlan::Cover(c) => {
            assert_eq!((words(&c.start), words(&c.end)), (strings(&["b"]), strings(&["d"])));
            assert!(!c.skip_start && c.skip_end);
        }
        _ => panic!("the index covers the range"),
    }
    // A range open on one side takes in the entries of rows without a value.
    let e = binary(BinaryOp::Gt, col("v"), word("b"));
    assert!(matches!(plan_count(&db.catalog.indexes, &open, "t", &e, &key), CountPlan::Stream));
    // No entry range counts a column that is to equal two values.
    let e = binary(BinaryOp::And, named("v", "x"), named("v", "y"));
    assert!(matches!(plan_count(&db.catalog.indexes, &open, "t", &e, &key), CountPlan::Stream));
    // A closed index covers nothing.
    let e = named("v", "x");
    assert!(matches!(
        plan_count(&db.catalog.indexes, &NameSet::new(), "t", &e, &key),
        CountPlan::Stream
    ));
    assert_eq!(complement_count(10, 4), 6);
    assert_eq!(complement_count(4, 10), 0);
}

#[test]
fn a_global_index_is_probed() {
    let db = db();
    let f = Some(among("mail", &[1, 2]));
    let (index, ts) = plan_global_probe(&db.catalog.indexes, "t", &f).unwrap();
    assert_eq!(index, "i_g");
    assert_eq!(ts.len(), 2);
    let g = Some(is("v", 1));
    assert!(plan_global_probe(&db.catalog.indexes, "t", &g).is_none());
}

#[test]
fn entries_move_by_their_difference() {
    let keys = |xs: &[&str]| -> Vec<Vec<u8>> { xs.iter().map(|x| x.as_bytes().to_vec()).collect() };
    let (gone, come) = global_entry_delta(&keys(&["a", "b"]), &keys(&["c", "b"]));
    assert_eq!((gone, come), (keys(&["a"]), keys(&["c"])));
    assert_eq!(unique_sorted(&keys(&["b", "a", "b"])), keys(&["a", "b"]));
}

#[test]
fn nulls_sort_last_going_up_and_first_going_down() {
    assert_eq!(compare_key(&rank, &Value::Null, &Value::Int(1), false), Rank::Greater);
    assert_eq!(compare_key(&rank, &Value::Int(1), &Value::Null, false), Rank::Less);
    assert_eq!(compare_key(&rank, &Value::Null, &Value::Int(1), true), Rank::Less);
    assert_eq!(compare_key(&rank, &Value::Null, &Value::Null, true), Rank::Equal);
    assert_eq!(compare_key(&rank, &Value::Int(1), &Value::Int(2), true), Rank::Greater);
    let row = |a: i64, b: i64| vec![Value::Int(a), Value::Int(b)];
    assert_eq!(order_compare(&row(1, 2), &row(1, 3), &vec![false, true], &rank), Rank::Greater);
}

#[test]
fn rows_are_sorted_stably_and_cut_to_the_top() {
    let keys = |ns: &[i64]| -> Vec<Vec<Value>> { ns.iter().map(|n| vec![Value::Int(*n)]).collect() };
    let ks = keys(&[3, 1, 2, 1]);
    assert_eq!(sort_places(&ks, &vec![false], None, &rank), vec![1, 3, 2, 0]);
    assert_eq!(sort_places(&ks, &vec![true], None, &rank), vec![0, 2, 1, 3]);
    assert_eq!(sort_places(&ks, &vec![false], Some(2), &rank), vec![1, 3]);
    let mut top: TopK<&str> = TopK::new(2, false);
    for (n, k, d) in [(3, "c", "x"), (1, "b", "y"), (1, "a", "z"), (2, "d", "w")] {
        top.feed(Value::Int(n), k.as_bytes().to_vec(), d, &rank);
    }
    let got: Vec<&str> = top.rows.iter().map(|r| r.2).collect();
    assert_eq!(got, vec!["z", "y"]);
}

#[test]
fn pages_are_cut_from_the_rows() {
    let page = |offset: Option<u64>, limit: Option<u64>| {
        let mut rows = vec![0, 1, 2, 3, 4];
        apply_offset_limit(&mut rows, offset, limit);
        rows
    };
    assert_eq!(page(Some(1), Some(2)), vec![1, 2]);
    assert_eq!(page(Some(9), None), Vec::<i32>::new());
    assert_eq!(page(None, Some(0)), Vec::<i32>::new());
    assert_eq!(page(None, None), vec![0, 1, 2, 3, 4]);
    assert_eq!(page_depth(Some(3), 4), 7);
    assert_eq!(page_depth(None, 4), 4);
    assert_eq!(page_depth(Some(u64::MAX), 4), u64::MAX);
}

fn walked(k: &str, matched: bool, ties: bool) -> WalkedRow<()> {
    WalkedRow { key: k.as_bytes().to_vec(), doc: (), matched, ties }
}

#[test]
fn a_walk_stops_at_its_limit() {
    let mode = collect_mode(WalkKind::Table, false, false, Some(2));
    assert_eq!(mode.stop_at, Some(2));
    let mut c = RowCollector::new(&mode);
    assert!(!c.feed(walked("a", true, false)));
    assert!(!c.feed(walked("b", false, false)));
    assert!(c.feed(walked("c", true, false)));
    assert_eq!(c.rows.len(), 2);
    // An unordered walk of an ordered request reads everything.
    let mode = collect_mode(WalkKind::Table, true, true, Some(2));
    assert_eq!(mode.stop_at, None);
    assert!(!mode.sorted);
}

#[test]
fn ties_at_the_limit_are_kept() {
    let mode = collect_mode(WalkKind::Index(true), true, false, Some(1));
    assert!(mode.keep_ties && !mode.sorted);
    let mut c = RowCollector::new(&mode);
    assert!(!c.feed(walked("a", true, false)));
    assert!(!c.feed(walked("b", true, true)));
    assert!(c.feed(walked("c", true, false)));
    assert_eq!(c.rows.len(), 2);
    let exact = collect_mode(WalkKind::Index(true), true, true, Some(1));
    assert!(!exact.keep_ties && exact.sorted);
}

#[test]
fn a_stamp_scan_starts_before_its_first_key() {
    assert_eq!(stamps_cursor(&Vec::new()), None);
    assert_eq!(stamps_cursor(&b"ab".to_vec()), Some(b"a".to_vec()));
}

fn search_call() -> Expr {
    Expr::Func {
        name: s("match"),
        args: vec![col("body"), Expr::Literal(Value::String(s("x")))],
    }
}

fn nearest() -> Option<Nearest> {
    Some(Nearest { path: s("emb"), query: col("q"), k: num(3) })
}

#[test]
fn selects_are_routed() {
    assert_eq!(route_select(&star("t")).unwrap(), SelectRoute::Plain);
    let mut sel = star("t");
    sel.filter = Some(search_call());
    assert_eq!(route_select(&sel).unwrap(), SelectRoute::Search);
    let mut sel = star("t");
    sel.after = Some(vec![num(1), num(2)]);
    assert!(route_select(&sel).unwrap_err().message().starts_with("AFTER requires a MATCH()"));
    assert_eq!(route_plain(&star(""), false), PlainRoute::Constant);
    assert_eq!(route_plain(&star("m"), true), PlainRoute::Timeseries);
    assert_eq!(route_plain(&star("t"), false), PlainRoute::Simple);
    let mut sel = star("t");
    sel.nearest = nearest();
    assert_eq!(route_plain(&sel, false), PlainRoute::Nearest);
    let mut sel = star("t");
    sel.joins.push(Join { kind: JoinKind::Cross, table: s("u"), alias: s("u"), on: None });
    assert_eq!(route_plain(&sel, false), PlainRoute::Join);
}

#[test]
fn lone_counts_and_distincts_have_their_own_routes() {
    let mut sel = select(vec![item(count_star())], "t");
    assert_eq!(route_simple(&sel), SimpleRoute::CountAll);
    sel.filter = Some(is("v", 1));
    assert_eq!(route_simple(&sel), SimpleRoute::CountFiltered);
    let mut sel = select(vec![item(col("v"))], "t");
    assert_eq!(route_simple(&sel), SimpleRoute::Gather);
    sel.distinct = true;
    assert_eq!(route_simple(&sel), SimpleRoute::Distinct);
    assert_eq!(expr_name(&count_star()), "count");
    assert_eq!(expr_name(&col("a.b")), "a.b");
    let sel = select(
        vec![
            SelectItem::Wildcard,
            SelectItem::Expr { expr: col("v"), alias: Some(s("w")) },
            item(num(1)),
        ],
        "t",
    );
    assert_eq!(
        output_columns(&sel, &strings(&["a", "b"])),
        strings(&["a", "b", "w", "expr"])
    );
}

#[test]
fn nearest_checks_its_statement() {
    let msg = |sel: &Select| match check_nearest(sel) {
        Err(EngineError::Unsupported(m)) => m,
        _ => panic!("refused"),
    };
    let mut sel = star("t");
    sel.nearest = nearest();
    assert!(check_nearest(&sel).is_ok());
    sel.order_by.push(OrderKey { expr: col("a"), descending: false });
    assert_eq!(
        msg(&sel),
        "NEAREST results are already ordered by distance; ORDER BY is not supported"
    );
    sel.group_by.push(col("a"));
    assert_eq!(msg(&sel), "NEAREST cannot be combined with aggregates or GROUP BY");
    sel.joins.push(Join { kind: JoinKind::Cross, table: s("u"), alias: s("u"), on: None });
    assert_eq!(msg(&sel), "NEAREST cannot be combined with JOIN or UNION");
}

#[test]
fn limits_and_orders_are_read_from_the_statement() {
    let mut sel = star("t");
    sel.limit = Some(4);
    sel.offset = Some(3);
    assert_eq!(simple_fetch_limit(&sel), Some(7));
    assert!(check_bound_counts(&sel).is_ok());
    sel.limit_param = Some(0);
    assert!(matches!(
        check_bound_counts(&sel),
        Err(EngineError::Type(m)) if m == "unbound parameter (`?`) in LIMIT/OFFSET"
    ));
    sel.order_by.push(OrderKey { expr: col("a"), descending: true });
    let o = index_order_column(&sel.order_by).unwrap();
    assert!(o.col == "a" && o.descending && o.exact);
    sel.order_by.push(OrderKey { expr: col("b"), descending: false });
    assert!(!index_order_column(&sel.order_by).unwrap().exact);
}

#[test]
fn a_spent_scan_budget_names_the_table_and_the_columns() {
    assert_eq!(
        enrich_scan_budget("scan budget exceeded", "d\u{1f}t", &None),
        "scan budget exceeded [table d.t]"
    );
    let f = Some(and(is("b", 1), and(is("a", 2), is("b", 3))));
    assert_eq!(
        enrich_scan_budget("scan budget exceeded: 5 rows", "t", &f),
        "scan budget exceeded: 5 rows [table t, filter column(s): b, a]"
    );
    assert_eq!(enrich_scan_budget("statement timeout", "t", &f), "statement timeout");
}

fn no_cover(_d: &SearchIndexDef, _c: &String) -> bool {
    false
}

#[test]
fn reads_are_explained() {
    let db = db();
    let access = |sel: &Select| {
        let path = db.explain_path(sel, None, &no_cover, &key).unwrap();
        let rows = explain_select(sel, &settle_path(path, 2, 5));
        assert_eq!(rows[0], (s("statement"), s("SELECT")));
        assert_eq!(rows[1], (s("table"), s("t")));
        rows[2].1.clone()
    };
    let mut sel = star("t");
    assert_eq!(access(&sel), "full table scan (streaming k-way merge)");
    sel.filter = Some(is("id", 1));
    assert_eq!(access(&sel), "point read (primary-key equality)");
    sel.filter = Some(among("id", &[1, 2]));
    assert_eq!(access(&sel), "point-read set (primary-key =/IN, 2 keys)");
    sel.filter = Some(is("v", 1));
    assert_eq!(access(&sel), "index scan via 'i_v' (bounded range)");
    sel.filter = Some(is("mail", 1));
    assert_eq!(access(&sel), "global-index probe via 'i_g' (routed to the value's replica set)");
    assert!(matches!(settle_path(ReadPath::Series, 0, 0), SettledPath::Series));
    // The statement as a whole: equal keys are read once.
    let encode = |vs: &Vec<&Value>| vs.iter().flat_map(|v| key(v)).collect::<Vec<u8>>();
    let size = |_: &IndexPlan<'_>| 5usize;
    sel.filter = Some(among("id", &[1, 2, 1]));
    let rs = db
        .explain_statement(&Statement::Select(sel), None, "", &no_cover, &key, &encode, &size)
        .unwrap();
    assert_eq!(rs.columns, strings(&["aspect", "decision"]));
    assert!(matches!(
        rs.rows[2].as_slice(),
        [Value::String(a), Value::String(d)]
            if a == "access" && d == "point-read set (primary-key =/IN, 2 keys)"
    ));
    let missing = Statement::Select(star("u"));
    assert!(matches!(
        db.explain_statement(&missing, None, "", &no_cover, &key, &encode, &size),
        Err(EngineError::TableNotFound(_))
    ));
    assert!(matches!(
        db.explain_path(&star("u"), None, &no_cover, &key),
        Err(EngineError::TableNotFound(_))
    ));
}

#[test]
fn the_explained_path_is_the_planned_one() {
    let db = db();
    let filters = vec![
        (None, "table"),
        (Some(is("id", 1)), "point"),
        (Some(among("id", &[1, 2])), "points"),
        (Some(is("v", 1)), "index"),
        (Some(is("zzz", 1)), "table"),
    ];
    for (filter, kind) in filters {
        let planned = match db.plan_gather("t", &filter, false, None, false, &key).unwrap() {
            Access::Point(_) => "point",
            Access::Points(_) => "points",
            Access::Index(IndexChoice::Scan) => "table",
            Access::Index(_) => "index",
            _ => "other",
        };
        assert_eq!(planned, kind);
        let mut sel = star("t");
        sel.filter = filter;
        let explained = match db.explain_path(&sel, None, &no_cover, &key).unwrap() {
            ReadPath::Point => "point",
            ReadPath::Points(_) => "points",
            ReadPath::Index(_) => "index",
            ReadPath::Table => "table",
            _ => "other",
        };
        assert_eq!(explained, kind);
    }
}

#[test]
fn every_access_is_explained_as_it_is_planned() {
    let at = |n: u64| Hlc::new(n, 0);
    let mut db = db();
    db.create_table(
        CreateTable {
            name: s("p"),
            if_not_exists: false,
            primary_key: strings(&["org", "id"]),
            ttl_ms: None,
            memory: false,
            replication: None,
            nodes: Vec::new(),
            witness: false,
        },
        at(10),
    )
    .unwrap();
    db.create_index("i_org", "p", strings(&["org"]), false, false, true, at(11)).unwrap();
    db.finish_index_backfill("i_org");
    let access = |sel: &Select, geo: Option<(String, usize)>| {
        let path = db.explain_path(sel, geo, &no_cover, &key).unwrap();
        explain_select(sel, &settle_path(path, 2, 5))[2].1.clone()
    };
    // A slice of the table comes before an index.
    let mut sel = star("p");
    sel.filter = Some(is("org", 1));
    assert!(access(&sel, None).starts_with("primary-key prefix range"));
    // So does a walk in key order; a walk down needs a limit.
    let mut sel = star("p");
    sel.order_by.push(OrderKey { expr: col("org"), descending: false });
    assert_eq!(access(&sel, None), "primary-key-ordered walk (full table, ASC, early-stop at LIMIT)");
    sel.order_by[0].descending = true;
    assert_eq!(
        access(&sel, None),
        "index-ordered walk via 'i_org' (full index, DESC tail-walk, early-stop at LIMIT)"
    );
    sel.limit = Some(3);
    sel.filter = Some(binary(BinaryOp::Gt, col("org"), num(5)));
    assert_eq!(
        access(&sel, None),
        "primary-key-ordered walk (lower-bounded range, DESC tail-walk, early-stop at LIMIT)"
    );
    // A geo index comes behind a point read and before everything else.
    let mut sel = star("t");
    sel.filter = Some(is("id", 1));
    assert_eq!(access(&sel, Some((s("g"), 3))), "point read (primary-key equality)");
    sel.filter = Some(is("v", 1));
    assert_eq!(access(&sel, Some((s("g"), 3))), "geo index scan via 'g' (3 Morton-code range(s))");
    // A joined table is read in full.
    let on = Some(is("id", 1));
    sel.joins.push(Join { kind: JoinKind::Inner, table: s("p"), alias: s("p"), on });
    assert_eq!(access(&sel, None), "full table scan (streaming k-way merge)");
}

#[test]
fn a_vector_search_is_explained_by_the_index_on_its_column() {
    let at = |n: u64| Hlc::new(n, 0);
    let mut db = db();
    for (i, path) in ["a_emb", "b_emb"].iter().enumerate() {
        db.create_vector_index(
            CreateVectorIndex {
                name: s(&format!("v_{path}")),
                table: s("t"),
                path: s(path),
                metric: s("l2"),
                dim: Some(3),
                embed: false,
                quantized: false,
                if_not_exists: false,
            },
            VectorFacts { embedder_dim: None, metric_known: true, inferred_dim: None },
            at(20 + i as u64),
        )
        .unwrap();
    }
    let mut sel = star("t");
    sel.nearest = Some(Nearest { path: s("b_emb"), query: num(1), k: num(1) });
    let path = db.explain_path(&sel, None, &no_cover, &key).unwrap();
    assert!(matches!(path, ReadPath::Vector { index: Some(i), .. } if i == "v_b_emb"));
    sel.nearest = Some(Nearest { path: s("c_emb"), query: num(1), k: num(1) });
    let path = db.explain_path(&sel, None, &no_cover, &key).unwrap();
    assert!(matches!(path, ReadPath::Vector { index: None, .. }));
}

#[test]
fn a_search_is_explained_by_its_strategy() {
    let at = |n: u64| Hlc::new(n, 0);
    let mut db = db();
    db.create_search_index(
        CreateSearchIndex {
            name: s("f"),
            table: s("t"),
            paths: strings(&["body"]),
            options: Vec::new(),
            if_not_exists: false,
        },
        Ok(()),
        at(20),
    )
    .unwrap();
    let words = || Expr::Func {
        name: s("match"),
        args: vec![col("body"), Expr::Literal(Value::String(s("x")))],
    };
    let covers = |_: &SearchIndexDef, c: &String| c == "body";
    // A count over the matches alone is answered inside the index.
    let mut sel = select(vec![item(count_star())], "t");
    sel.filter = Some(words());
    let path = db.explain_path(&sel, None, &covers, &key).unwrap();
    assert!(matches!(path, ReadPath::SearchGroups { pushdown: true, .. }));
    // A conjunct that is left over has the rows gathered.
    sel.filter = Some(and(words(), is("v", 1)));
    let path = db.explain_path(&sel, None, &covers, &key).unwrap();
    assert!(matches!(path, ReadPath::SearchGroups { pushdown: false, .. }));
    // The best hits are fetched to the depth of the page.
    let mut sel = star("t");
    sel.filter = Some(words());
    let score = Expr::Func { name: s("score"), args: Vec::new() };
    sel.order_by.push(OrderKey { expr: score, descending: true });
    sel.limit = Some(5);
    sel.offset = Some(2);
    let path = db.explain_path(&sel, None, &covers, &key).unwrap();
    assert!(matches!(path, ReadPath::SearchTop { k: 7, residual: false, .. }));
}

#[test]
fn other_statements_are_explained() {
    let db = db();
    let del = |f: Option<Expr>| {
        let stmt = Statement::Delete(Delete { table: s("t"), filter: f });
        db.explain_other(&stmt, "DELETE FROM t", &key).unwrap()[2].1.clone()
    };
    assert_eq!(del(Some(is("id", 1))), "point read (primary-key equality), then tombstone");
    assert_eq!(del(None), "scan matching rows, then tombstone each");
    let ins = Statement::Insert(Insert { table: s("t"), columns: Vec::new(), rows: Vec::new() });
    let rows = db.explain_other(&ins, "INSERT INTO t", &key).unwrap();
    assert_eq!(rows[0].1, "INSERT");
    let rows = db.explain_other(&Statement::ShowTables, "SHOW TABLES", &key).unwrap();
    assert_eq!(rows[0].1, "SHOW");
    assert_eq!(rows[1].1, "executes directly (no data-access plan)");
}

#[test]
fn geo_predicates_are_read_off_the_filter() {
    let call = |name: &str, args: Vec<Expr>| Expr::Func { name: s(name), args };
    let near = binary(
        BinaryOp::LtEq,
        call("geo_distance", vec![col("loc"), num(1), num(2)]),
        num(500),
    );
    let inside = call("geo_bbox", vec![col("loc"), num(1), num(2), num(3), num(4)]);
    let f = Some(and(near, and(inside, is("v", 1))));
    let ps = geo_predicates(&f);
    assert_eq!(ps.len(), 2);
    assert!(matches!(&ps[0], GeoPredicate::Distance { column, .. } if *column == "loc"));
    assert!(matches!(&ps[1], GeoPredicate::Box { column, .. } if *column == "loc"));
    let negated = Some(Expr::Unary {
        op: UnaryOp::Not,
        expr: Box::new(call("geo_bbox", vec![col("loc"), num(1), num(2), num(3), num(4)])),
    });
    assert!(geo_predicates(&negated).is_empty());
}
