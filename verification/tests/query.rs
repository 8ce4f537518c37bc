use skaidb_engine::aggregate::{
    decide_over_group, eval_aggregate, eval_over_group, lower_aggregates, series_samples,
    sort_samples, sum_ints, AggOutcome,
};
use skaidb_engine::ast::{
    AggArg, AggFunc, BinaryOp, Expr, GroupTop, Join, JoinKind, OrderKey, Select, SelectItem,
};
use skaidb_engine::counting::{
    count_result, counts_are_exact, distinct_result, distinct_values,
    sorted_candidates,
};
use skaidb_engine::error::EngineError;
use skaidb_engine::execute::{
    filter_rows, insert_document, insert_rows, matches_filter,
    primary_key_bytes, run_const_select, update_row,
};
use skaidb_engine::grouping::{group_docs, project, select_aggregate, select_group_topk};
use skaidb_engine::join::{equi_key_paths, gather_join_docs, join_hidden_keys, merge_tuple};
use skaidb_engine::model::{copy_document, copy_value, set_path};
use skaidb_engine::order::Rank;
use skaidb_engine::projection::NameSet;
use skaidb_engine::rename::rename_row;
use skaidb_engine::results::{
    add_leg, dedup_rows, finalize_compound, select_rows, ResultSet,
};
use skaidb_engine::value::{value_type_label, Document, Value};

fn s(x: &str) -> String {
    x.to_string()
}

fn strings(xs: &[&str]) -> Vec<String> {
    xs.iter().map(|x| x.to_string()).collect()
}

fn col(path: &str) -> Expr {
    Expr::Column(s(path))
}

fn num(n: i64) -> Expr {
    Expr::Literal(Value::Int(n))
}

fn binary(op: BinaryOp, left: Expr, right: Expr) -> Expr {
    Expr::Binary { op, left: Box::new(left), right: Box::new(right) }
}

fn is(c: &str, n: i64) -> Expr {
    binary(BinaryOp::Eq, col(c), num(n))
}

fn item(expr: Expr) -> SelectItem {
    SelectItem::Expr { expr, alias: None }
}

fn agg(func: AggFunc, c: &str) -> Expr {
    Expr::Aggregate { func, arg: AggArg::Expr(Box::new(col(c))) }
}

fn count_star() -> Expr {
    Expr::Aggregate { func: AggFunc::Count, arg: AggArg::Star }
}

fn select(items: Vec<SelectItem>) -> Select {
    Select {
        distinct: false,
        items,
        from: s("t"),
        from_alias: s("t"),
        joins: Vec::new(),
        filter: None,
        group_by: Vec::new(),
        group_top: None,
        having: None,
        order_by: Vec::new(),
        limit: None,
        offset: None,
        limit_param: None,
        offset_param: None,
        set_ops: Vec::new(),
        nearest: None,
        rrf: None,
        rerank: None,
        after: None,
    }
}

fn doc(fields: &[(&str, i64)]) -> Document {
    let mut d = Document::new();
    for (k, v) in fields {
        d.put_field(s(k), Value::Int(*v));
    }
    d
}

fn lookup<'a>(d: &'a Document, path: &str) -> Option<&'a Value> {
    match path.split_once('.') {
        None => d.field(path),
        Some((head, rest)) => match d.field(head) {
            Some(Value::Document(inner)) => lookup(inner, rest),
            _ => None,
        },
    }
}

/// Columns, literals, `=` and `+` over integers.
fn eval(e: &Expr, d: &Document) -> Result<Value, EngineError> {
    match e {
        Expr::Literal(v) => Ok(copy_value(v)),
        Expr::Column(p) => Ok(lookup(d, p).map(copy_value).unwrap_or(Value::Null)),
        Expr::Binary { op: BinaryOp::Plus, left, right } => match (eval(left, d)?, eval(right, d)?) {
            (Value::Int(a), Value::Int(b)) => Ok(Value::Int(a + b)),
            _ => Err(EngineError::Type(s("not a number"))),
        },
        Expr::Binary { op: BinaryOp::Eq, left, right } => match (eval(left, d)?, eval(right, d)?) {
            (Value::Int(a), Value::Int(b)) => Ok(Value::Bool(a == b)),
            _ => Ok(Value::Bool(false)),
        },
        Expr::Binary { op: BinaryOp::Gt, left, right } => match (eval(left, d)?, eval(right, d)?) {
            (Value::Int(a), Value::Int(b)) => Ok(Value::Bool(a > b)),
            _ => Ok(Value::Bool(false)),
        },
        _ => Err(EngineError::Unsupported(s("expression"))),
    }
}

fn decide(e: &Expr, d: &Document) -> Result<bool, EngineError> {
    match eval(e, d)? {
        Value::Bool(b) => Ok(b),
        _ => Err(EngineError::Type(s("not a condition"))),
    }
}

fn encode(vs: &Vec<&Value>) -> Vec<u8> {
    let mut out = Vec::new();
    for v in vs {
        match v {
            Value::Int(n) => {
                out.push(1);
                out.extend_from_slice(&((*n as u64) ^ (1 << 63)).to_be_bytes());
            }
            Value::String(t) => {
                out.push(2);
                out.extend_from_slice(t.as_bytes());
                out.push(0);
            }
            _ => out.push(0),
        }
    }
    out
}

fn rank(a: &Value, b: &Value) -> Rank {
    match (a, b) {
        (Value::Int(x), Value::Int(y)) if x < y => Rank::Less,
        (Value::Int(x), Value::Int(y)) if x > y => Rank::Greater,
        _ => Rank::Equal,
    }
}

fn comparison(a: &Value, b: &Value) -> Option<Rank> {
    match (a, b) {
        (Value::Int(_), Value::Int(_)) => Some(rank(a, b)),
        _ => None,
    }
}

fn clock(v: &Value) -> Option<i64> {
    match v {
        Value::Int(n) | Value::Timestamp(n) => Some(*n),
        _ => None,
    }
}

fn finish(
    _: &AggFunc,
    _: &AggArg,
    _: &Vec<&Document>,
    o: AggOutcome,
) -> Result<Value, EngineError> {
    match o {
        AggOutcome::Sum(vs) => Ok(Value::Int(sum_ints(&vs))),
        _ => Err(EngineError::Unsupported(s("aggregate"))),
    }
}

fn eval_group(e: &Expr, docs: &Vec<&Document>) -> Result<Value, EngineError> {
    eval_over_group(&eval, &encode, &comparison, &clock, &finish, e, docs)
}

fn decide_group(e: &Expr, docs: &Vec<&Document>) -> Result<bool, EngineError> {
    decide_over_group(&eval, &encode, &comparison, &clock, &finish, &decide, e, docs)
}

fn shown(v: &Value) -> String {
    match v {
        Value::Null => s("null"),
        Value::Bool(b) => format!("{b}"),
        Value::Int(n) => format!("{n}"),
        Value::String(t) => t.clone(),
        _ => s("?"),
    }
}

fn rows(rs: &ResultSet) -> Vec<String> {
    rs.rows.iter().map(|r| r.iter().map(shown).collect::<Vec<_>>().join(",")).collect()
}

fn int_rows(list: &[&[i64]]) -> Vec<Vec<Value>> {
    list.iter().map(|r| r.iter().map(|n| Value::Int(*n)).collect()).collect()
}

fn projected(sel: &Select, docs: &Vec<Document>) -> Result<ResultSet, EngineError> {
    project(
        &eval, &rank, &encode, &encode, &eval_group, &decide_group, sel, docs, false,
        &NameSet::new(), true,
    )
}

#[test]
fn rows_are_filtered() {
    assert!(matches_filter(&decide, &None, &doc(&[])).unwrap());
    let f = Some(is("a", 1));
    let kept = filter_rows(
        &decide,
        &f,
        vec![(b"x".to_vec(), doc(&[("a", 1)])), (b"y".to_vec(), doc(&[("a", 2)]))],
    )
    .unwrap();
    assert_eq!(kept.len(), 1);
    assert_eq!(kept[0].0, b"x");
    let bad = Some(col("a"));
    assert!(matches!(
        filter_rows(&decide, &bad, vec![(b"x".to_vec(), doc(&[("a", 1)]))]),
        Err(EngineError::Type(_))
    ));
}

#[test]
fn inserts_make_documents_and_keys() {
    let d = insert_document(&eval, &strings(&["id", "m.x"]), &vec![num(7), num(1)]).unwrap();
    assert!(matches!(d.field("id"), Some(Value::Int(7))));
    assert!(matches!(d.field("m.x"), Some(Value::Int(1))));
    let made = insert_rows(
        &eval,
        &encode,
        &strings(&["id"]),
        &strings(&["id", "v"]),
        &vec![vec![num(1), num(2)], vec![num(3), num(4)]],
    )
    .unwrap();
    assert_eq!(made.len(), 2);
    assert_eq!(made[1].0, encode(&vec![&Value::Int(3)]));
    let missing = insert_rows(
        &eval,
        &encode,
        &strings(&["id"]),
        &strings(&["v"]),
        &vec![vec![num(2)]],
    );
    assert!(matches!(
        missing,
        Err(EngineError::Constraint(m)) if m == "primary key column \"id\" must not be null or missing"
    ));
    let mut null = doc(&[]);
    null.put_field(s("i\"d"), Value::Null);
    assert!(matches!(
        primary_key_bytes(&strings(&["i\"d"]), &null, &encode),
        Err(EngineError::Constraint(m))
            if m == "primary key column \"i\\\"d\" must not be null or missing"
    ));
}

#[test]
fn updates_move_rows_whose_key_changes() {
    let row = doc(&[("id", 1), ("v", 5)]);
    let old_key = encode(&vec![&Value::Int(1)]);
    let plus = binary(BinaryOp::Plus, col("v"), num(1));
    let u = update_row(&eval, &encode, &strings(&["id"]), &old_key, &row, &vec![(s("v"), plus)])
        .unwrap();
    assert!(!u.delete_old);
    assert_eq!(u.key, old_key);
    assert!(matches!(u.doc.field("v"), Some(Value::Int(6))));
    let u = update_row(&eval, &encode, &strings(&["id"]), &old_key, &row, &vec![(s("id"), num(2))])
        .unwrap();
    assert!(u.delete_old);
    assert_eq!(u.key, encode(&vec![&Value::Int(2)]));
    // Every assignment reads the row as it was.
    let swap = vec![(s("id"), col("v")), (s("v"), col("id"))];
    let u = update_row(&eval, &encode, &strings(&["id"]), &old_key, &row, &swap).unwrap();
    assert!(matches!(u.doc.field("v"), Some(Value::Int(1))));
}

#[test]
fn a_path_is_set_and_read_back() {
    let mut d = doc(&[("a", 1)]);
    set_path(&mut d, "m.x.y", Value::Int(3));
    set_path(&mut d, "m.z", Value::Int(4));
    assert!(matches!(lookup(&d, "m.x.y"), Some(Value::Int(3))));
    assert!(matches!(lookup(&d, "m.z"), Some(Value::Int(4))));
    assert!(matches!(lookup(&d, "a"), Some(Value::Int(1))));
    set_path(&mut d, "a.b", Value::Int(5));
    assert!(matches!(lookup(&d, "a.b"), Some(Value::Int(5))));
    let copy = copy_document(&d);
    assert!(matches!(lookup(&copy, "m.x.y"), Some(Value::Int(3))));
    assert!(matches!(d.take_field("a"), Some(Value::Document(_))));
    assert!(d.field("a").is_none() && copy.field("a").is_some());
    assert_eq!(value_type_label(&Value::Int(1)), "int");
}

#[test]
fn a_row_follows_a_renamed_column() {
    let row = doc(&[("id", 1), ("v", 5)]);
    let key = encode(&vec![&Value::Int(1)]);
    let r = rename_row(&encode, &strings(&["id"]), &key, &row, "v", "w").unwrap().unwrap();
    assert!(!r.delete_old && r.key == key);
    assert!(r.doc.field("v").is_none());
    assert!(matches!(r.doc.field("w"), Some(Value::Int(5))));
    assert!(rename_row(&encode, &strings(&["id"]), &key, &row, "x", "y").unwrap().is_none());
}

#[test]
fn a_constant_select_is_one_row() {
    let sel = select(vec![SelectItem::Expr { expr: num(1), alias: Some(s("one")) }, item(num(2))]);
    let (columns, row) = run_const_select(&eval, &sel).unwrap();
    assert_eq!(columns, strings(&["one", "expr"]));
    assert_eq!(row.iter().map(shown).collect::<Vec<_>>(), vec!["1", "2"]);
    let star = select(vec![SelectItem::Wildcard]);
    assert!(matches!(
        run_const_select(&eval, &star),
        Err(EngineError::Unsupported(m)) if m == "SELECT * requires a FROM table"
    ));
}

#[test]
fn rows_are_projected_ordered_and_paged() {
    let docs = vec![
        doc(&[("a", 3), ("b", 1)]),
        doc(&[("a", 1), ("b", 2)]),
        doc(&[("a", 2), ("b", 3)]),
        doc(&[("a", 1), ("b", 4)]),
    ];
    let mut sel = select(vec![SelectItem::Wildcard]);
    let rs = projected(&sel, &docs).unwrap();
    assert_eq!(rs.columns, strings(&["a", "b"]));
    assert_eq!(rows(&rs), vec!["3,1", "1,2", "2,3", "1,4"]);
    sel.order_by.push(OrderKey { expr: col("a"), descending: false });
    assert_eq!(rows(&projected(&sel, &docs).unwrap()), vec!["1,2", "1,4", "2,3", "3,1"]);
    sel.limit = Some(2);
    sel.offset = Some(1);
    assert_eq!(rows(&projected(&sel, &docs).unwrap()), vec!["1,4", "2,3"]);
    let mut distinct = select(vec![item(col("a"))]);
    distinct.distinct = true;
    assert_eq!(rows(&projected(&distinct, &docs).unwrap()), vec!["3", "1", "2"]);
    let mut hide = NameSet::new();
    hide.add_name(s("a"));
    let star = select(vec![SelectItem::Wildcard]);
    let rs = select_rows(
        &eval, &rank, &encode, &star, &docs, vec![2, 0], true, &hide, true,
    )
    .unwrap();
    assert_eq!(rs.columns, strings(&["b"]));
    assert_eq!(rows(&rs), vec!["3", "1"]);
}

#[test]
fn a_union_drops_or_keeps_duplicates() {
    let leg = |list: &[&[i64]]| ResultSet { columns: strings(&["a"]), rows: int_rows(list) };
    let all = add_leg(&encode, leg(&[&[1], &[2]]), leg(&[&[2], &[3]]), true).unwrap();
    assert_eq!(rows(&all), vec!["1", "2", "2", "3"]);
    let some = add_leg(&encode, leg(&[&[1], &[2], &[1]]), leg(&[&[2], &[3]]), false).unwrap();
    assert_eq!(rows(&some), vec!["1", "2", "3"]);
    let wide = ResultSet { columns: strings(&["a", "b"]), rows: int_rows(&[&[1, 2]]) };
    assert!(matches!(
        add_leg(&encode, leg(&[&[1]]), wide, true),
        Err(EngineError::Unsupported(m)) if m == "UNION branches must have the same number of columns"
    ));
    let mut sel = select(vec![item(col("a"))]);
    sel.order_by.push(OrderKey { expr: col("a"), descending: true });
    sel.limit = Some(2);
    let rs = finalize_compound(&eval, &rank, &encode, &sel, leg(&[&[1], &[3], &[2]])).unwrap();
    assert_eq!(rows(&rs), vec!["3", "2"]);
    let mut list = int_rows(&[&[1, 1], &[1, 2], &[1, 1]]);
    dedup_rows(&mut list, &encode);
    assert_eq!(list.len(), 2);
}

#[test]
fn documents_are_grouped_and_aggregated() {
    let docs = vec![
        doc(&[("k", 2), ("n", 10)]),
        doc(&[("k", 1), ("n", 5)]),
        doc(&[("k", 2), ("n", 7)]),
    ];
    let groups = group_docs(&eval, &encode, &vec![col("k")], &docs).unwrap();
    assert_eq!(groups.len(), 2);
    let members: usize = groups.iter().map(|g| g.members.len()).sum();
    assert_eq!(members, 3);
    let mut sel = select(vec![item(col("k")), item(count_star()), item(agg(AggFunc::Sum, "n"))]);
    sel.group_by.push(col("k"));
    sel.order_by.push(OrderKey { expr: col("k"), descending: false });
    let rs = projected(&sel, &docs).unwrap();
    assert_eq!(rs.columns, strings(&["k", "count", "sum"]));
    assert_eq!(rows(&rs), vec!["1,1,5", "2,2,17"]);
    sel.having = Some(binary(BinaryOp::Gt, count_star(), num(1)));
    assert_eq!(rows(&projected(&sel, &docs).unwrap()), vec!["2,2,17"]);
    // Without GROUP BY there is one group, also over no rows.
    let total = select(vec![item(count_star())]);
    assert_eq!(rows(&projected(&total, &Vec::new()).unwrap()), vec!["0"]);
    let mut star = select(vec![SelectItem::Wildcard]);
    star.group_by.push(col("k"));
    let r = select_aggregate(
        &eval, &rank, &encode, &encode, &eval_group, &decide_group, &star, &docs, true,
    );
    assert!(matches!(
        r,
        Err(EngineError::Unsupported(m)) if m == "`*` cannot be combined with aggregates or GROUP BY"
    ));
}

#[test]
fn each_group_gives_its_top_rows() {
    let docs = vec![
        doc(&[("k", 1), ("n", 1)]),
        doc(&[("k", 1), ("n", 3)]),
        doc(&[("k", 2), ("n", 9)]),
        doc(&[("k", 1), ("n", 2)]),
    ];
    let mut sel = select(vec![SelectItem::Wildcard]);
    sel.group_by.push(col("k"));
    let top = |by: Expr| GroupTop { k: 2, by, ascending: false };
    let run = |sel: &Select, t: &GroupTop| {
        select_group_topk(
            &eval, &rank, &encode, &encode, &decide_group, sel, t, &docs, true,
        )
    };
    let rs = run(&sel, &top(col("n"))).unwrap();
    let mut got = rows(&rs);
    got.sort();
    assert_eq!(got, vec!["1,2", "1,3", "2,9"]);
    let refused = |r: Result<ResultSet, EngineError>| match r {
        Err(EngineError::Unsupported(m)) => m,
        _ => panic!("refused"),
    };
    assert!(refused(run(&sel, &top(agg(AggFunc::Sum, "n"))))
        .starts_with("TOP ... BY ranks individual rows"));
    sel.items = vec![item(count_star())];
    assert!(refused(run(&sel, &top(col("n"))))
        .starts_with("with GROUP BY ... TOP the output is the groups' rows"));
}

fn aggregate(func: AggFunc, arg: AggArg, docs: &[Document]) -> Result<AggOutcome, EngineError> {
    let refs: Vec<&Document> = docs.iter().collect();
    eval_aggregate(&eval, &encode, &comparison, &clock, func, &arg, &refs)
}

fn value(r: Result<AggOutcome, EngineError>) -> String {
    match r {
        Ok(AggOutcome::Value(v)) => shown(&v),
        Ok(_) => s("parts"),
        Err(e) => e.message().clone(),
    }
}

#[test]
fn aggregates_reduce_their_values() {
    let mut docs = vec![
        doc(&[("n", 4), ("ts", 20)]),
        doc(&[("n", 9), ("ts", 10)]),
        doc(&[("n", 4), ("ts", 30)]),
    ];
    docs[0].put_field(s("gap"), Value::Null);
    let of = |c: &str| AggArg::Expr(Box::new(col(c)));
    assert_eq!(value(aggregate(AggFunc::Count, AggArg::Star, &docs)), "3");
    assert_eq!(value(aggregate(AggFunc::Count, of("gap"), &docs)), "0");
    assert_eq!(
        value(aggregate(AggFunc::Count, AggArg::Distinct(Box::new(col("n"))), &docs)),
        "2"
    );
    assert_eq!(value(aggregate(AggFunc::Min, of("n"), &docs)), "4");
    assert_eq!(value(aggregate(AggFunc::Max, of("n"), &docs)), "9");
    assert_eq!(value(aggregate(AggFunc::Min, of("gap"), &docs)), "null");
    assert_eq!(value(aggregate(AggFunc::First, of("n"), &docs)), "9");
    assert_eq!(value(aggregate(AggFunc::Last, of("n"), &docs)), "4");
    match aggregate(AggFunc::Sum, of("n"), &docs).unwrap() {
        AggOutcome::Value(v) => assert_eq!(shown(&v), "17"),
        AggOutcome::Sum(vs) => assert_eq!(sum_ints(&vs), 17),
        _ => panic!("a sum"),
    }
    assert!(matches!(aggregate(AggFunc::Avg, of("n"), &docs), Ok(AggOutcome::Average(vs)) if vs.len() == 3));
    assert!(matches!(
        aggregate(AggFunc::Percentile(9900), of("n"), &docs),
        Ok(AggOutcome::Percentile(9900, vs)) if vs.len() == 3
    ));
    assert!(matches!(aggregate(AggFunc::Rate, of("n"), &docs), Ok(AggOutcome::Change)));
    assert_eq!(
        value(aggregate(AggFunc::Percentile(5000), AggArg::Star, &docs)),
        "percentile() takes a field argument, not * or DISTINCT"
    );
    assert_eq!(
        value(aggregate(AggFunc::Rate, AggArg::Star, &docs)),
        "rate()/increase()/delta() take a field argument, not *"
    );
    assert_eq!(
        value(aggregate(AggFunc::First, AggArg::Star, &docs)),
        "first()/last() take a field argument, not *"
    );
    assert_eq!(
        value(aggregate(AggFunc::Sum, AggArg::Distinct(Box::new(col("n"))), &docs)),
        "DISTINCT aggregate arguments are supported for COUNT only"
    );
    assert_eq!(
        value(aggregate(AggFunc::First, of("n"), &[doc(&[("n", 1)])])),
        "first()/last() require a `ts` column on every row"
    );
}

#[test]
fn changes_are_read_per_series_in_time_order() {
    let mut docs =
        vec![doc(&[("n", 4), ("ts", 20)]), doc(&[("n", 1), ("ts", 10)]), doc(&[("n", 7), ("ts", 5)])];
    for (i, name) in ["a", "a", "b"].iter().enumerate() {
        docs[i].put_field(s("__series__"), Value::String(s(name)));
    }
    let refs: Vec<&Document> = docs.iter().collect();
    let series = series_samples(&eval, &clock, &col("n"), &refs).unwrap();
    assert_eq!(series.len(), 2);
    assert_eq!(series[0].series, "a");
    let sorted = sort_samples(vec![(20, Value::Int(4)), (10, Value::Int(1))]);
    assert_eq!(sorted.iter().map(|p| p.0).collect::<Vec<_>>(), vec![10, 20]);
}

#[test]
fn expressions_are_evaluated_over_a_group() {
    let docs: Vec<Document> = [3, 4]
        .iter()
        .map(|n| {
            let mut d = Document::new();
            d.put_field(s("n"), Value::Int(*n));
            d
        })
        .collect();
    let group: Vec<&Document> = docs.iter().collect();
    let sum = || agg(AggFunc::Sum, "n");
    assert_eq!(shown(&eval_group(&sum(), &group).unwrap()), "7");
    // Outside its aggregates an expression reads the first document.
    assert_eq!(shown(&eval_group(&Expr::Column(s("n")), &group).unwrap()), "3");
    assert!(decide_group(&binary(BinaryOp::Gt, sum(), num(6)), &group).unwrap());
    assert!(!decide_group(&binary(BinaryOp::Gt, sum(), num(7)), &group).unwrap());
    assert_eq!(shown(&eval_group(&sum(), &Vec::new()).unwrap()), "null");
    let avg = agg(AggFunc::Avg, "n");
    assert!(matches!(eval_group(&avg, &group), Err(EngineError::Unsupported(_))));
}

#[test]
fn aggregates_are_lowered_to_literals() {
    let e = binary(BinaryOp::Gt, agg(AggFunc::Sum, "n"), num(3));
    let low = lower_aggregates(&|_f: &AggFunc, _a: &AggArg| Ok(Value::Int(5)), &e).unwrap();
    assert!(decide(&low, &Document::new()).unwrap());
    let failed = lower_aggregates(
        &|_f: &AggFunc, _a: &AggArg| Err(EngineError::Type(s("no"))),
        &e,
    );
    assert!(failed.is_err());
}

fn equi_key(d: &Document, path: &String) -> Option<Vec<u8>> {
    match lookup(d, path) {
        Some(v @ Value::Int(_)) => Some(encode(&vec![v])),
        _ => None,
    }
}

fn joined(kind: JoinKind, on: Option<Expr>) -> Select {
    let mut sel = select(vec![item(col("t.id")), item(col("u.x"))]);
    sel.joins.push(Join { kind, table: s("u"), alias: s("u"), on });
    sel
}

#[test]
fn tables_are_joined() {
    let tables = vec![
        vec![doc(&[("id", 1)]), doc(&[("id", 2)]), doc(&[("id", 3)])],
        vec![doc(&[("tid", 2), ("x", 20)]), doc(&[("tid", 2), ("x", 21)]), doc(&[("tid", 9), ("x", 90)])],
    ];
    let on = || Some(binary(BinaryOp::Eq, col("t.id"), col("u.tid")));
    let run = |sel: &Select| {
        let docs = gather_join_docs(&decide, &equi_key, sel, &tables).unwrap();
        let mut got: Vec<String> = docs
            .iter()
            .map(|d| {
                let at = |p: &str| lookup(d, p).map(shown).unwrap_or(s("-"));
                format!("{},{}", at("t.id"), at("u.x"))
            })
            .collect();
        got.sort();
        got
    };
    assert_eq!(run(&joined(JoinKind::Inner, on())), vec!["2,20", "2,21"]);
    assert_eq!(run(&joined(JoinKind::Left, on())), vec!["1,-", "2,20", "2,21", "3,-"]);
    assert_eq!(run(&joined(JoinKind::Right, on())), vec!["-,90", "2,20", "2,21"]);
    assert_eq!(run(&joined(JoinKind::Cross, None)).len(), 9);
    // A condition that is no equality of columns: every pair is tried.
    let gt = Some(binary(BinaryOp::Gt, col("u.tid"), col("t.id")));
    assert_eq!(run(&joined(JoinKind::Inner, gt)).len(), 5);
    assert_eq!(equi_key_paths(&on(), "u"), Some((s("t.id"), s("tid"))));
    assert_eq!(equi_key_paths(&Some(is("u.tid", 1)), "u"), None);
    let hidden = join_hidden_keys(&joined(JoinKind::Inner, on()));
    assert!(hidden.contains("t") && hidden.contains("u") && hidden.len() == 2);
    assert_eq!(join_hidden_keys(&select(Vec::new())).len(), 0);
}

#[test]
fn the_first_side_wins_a_name_clash() {
    let (a, b) = (doc(&[("x", 1)]), doc(&[("x", 2), ("y", 3)]));
    let (ta, tb, tc) = (s("a"), s("b"), s("c"));
    let row = merge_tuple(&vec![(&ta, Some(&a)), (&tb, Some(&b)), (&tc, None)]);
    assert!(matches!(lookup(&row, "x"), Some(Value::Int(1))));
    assert!(matches!(lookup(&row, "b.x"), Some(Value::Int(2))));
    assert!(matches!(lookup(&row, "y"), Some(Value::Int(3))));
    assert!(row.field("c").is_none());
}

#[test]
fn counts_and_distincts_are_reported() {
    assert!(counts_are_exact("t", false, true, false).unwrap());
    assert!(!counts_are_exact("t", true, true, false).unwrap());
    assert!(!counts_are_exact("t", false, true, true).unwrap());
    assert!(matches!(
        counts_are_exact("t", false, false, false),
        Err(EngineError::TableNotFound(n)) if n == "t"
    ));
    let sel = select(vec![item(count_star())]);
    let rs = count_result(&sel, 42);
    assert_eq!(rs.columns, strings(&["count"]));
    assert_eq!(rows(&rs), vec!["42"]);
    let vs = distinct_values(&encode, vec![Value::Int(2), Value::Int(1), Value::Int(2)]);
    assert_eq!(vs.iter().map(shown).collect::<Vec<_>>(), vec!["1", "2"]);
    let mut sel = select(vec![item(col("a"))]);
    sel.distinct = true;
    sel.limit = Some(1);
    let rs = distinct_result(&sel, vs);
    assert_eq!(rs.columns, strings(&["a"]));
    assert_eq!(rs.rows.len(), 1);
    let keys: Vec<Vec<u8>> = ["b", "a", "b"].iter().map(|k| k.as_bytes().to_vec()).collect();
    assert!(sorted_candidates(true, true, &keys, 2).is_none());
}
