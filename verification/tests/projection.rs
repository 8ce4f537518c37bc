use skaidb_engine::ast::{
    AggArg, AggFunc, BinaryOp, Expr, GroupTop, Join, JoinKind, OrderKey, Select, SelectItem, SetOp,
    UnaryOp,
};
use skaidb_engine::describe::names_of_set;
use skaidb_engine::projection::{
    column_refs, contains_aggregate, group_by_projection_columns, has_wildcard, is_grouped, NameSet,
};
use skaidb_engine::value::Value;

fn col(path: &str) -> Expr {
    Expr::Column(path.to_string())
}

fn num(n: i64) -> Expr {
    Expr::Literal(Value::Int(n))
}

fn text(s: &str) -> Expr {
    Expr::Literal(Value::String(s.to_string()))
}

fn binary(op: BinaryOp, left: Expr, right: Expr) -> Expr {
    Expr::Binary { op, left: Box::new(left), right: Box::new(right) }
}

fn sum(arg: Expr) -> Expr {
    Expr::Aggregate { func: AggFunc::Sum, arg: AggArg::Expr(Box::new(arg)) }
}

fn count_star() -> Expr {
    Expr::Aggregate { func: AggFunc::Count, arg: AggArg::Star }
}

fn item(expr: Expr) -> SelectItem {
    SelectItem::Expr { expr, alias: None }
}

fn select(items: Vec<SelectItem>, from: &str) -> Select {
    Select {
        distinct: false,
        items,
        from: from.to_string(),
        from_alias: from.to_string(),
        joins: Vec::new(),
        filter: None,
        group_by: Vec::new(),
        group_top: None,
        having: None,
        order_by: Vec::new(),
        limit: None,
        offset: None,
        limit_param: None,
        offset_param: None,
        set_ops: Vec::new(),
        nearest: None,
        rrf: None,
        rerank: None,
        after: None,
    }
}

fn grouped(items: Vec<SelectItem>, from: &str, by: Expr) -> Select {
    let mut sel = select(items, from);
    sel.group_by.push(by);
    sel
}

fn wanted(sel: &Select) -> Option<Vec<String>> {
    group_by_projection_columns(sel).map(|s| names_of_set(&s))
}

fn has(names: &[String], name: &str) -> bool {
    names.iter().any(|n| n == name)
}

/// `SELECT account, SUM(amount) FROM t GROUP BY account`
#[test]
fn plain_group_by_wants_group_and_agg_columns() {
    let sel = grouped(vec![item(col("account")), item(sum(col("amount")))], "t", col("account"));
    let w = wanted(&sel).unwrap();
    assert_eq!(w, vec!["account".to_string(), "amount".to_string()]);
}

/// `SELECT account, COUNT(*) FROM gmail_emails WHERE status = 'active' GROUP BY account`
#[test]
fn filter_columns_are_included_even_though_they_never_reach_select_aggregate() {
    let mut sel =
        grouped(vec![item(col("account")), item(count_star())], "gmail_emails", col("account"));
    sel.filter = Some(binary(BinaryOp::Eq, col("status"), text("active")));
    let w = wanted(&sel).unwrap();
    assert!(has(&w, "status"), "filter column must be wanted");
    assert!(has(&w, "account"));
    assert!(!has(&w, "body"));
}

/// `SELECT account, COUNT(*) FROM gmail_emails GROUP BY account`
#[test]
fn plain_count_star_wants_only_group_by_column() {
    let sel =
        grouped(vec![item(col("account")), item(count_star())], "gmail_emails", col("account"));
    let w = wanted(&sel).unwrap();
    assert_eq!(w, vec!["account".to_string()]);
    assert!(!has(&w, "body"), "must not want the wide unreferenced column");
}

/// `SELECT account, COUNT(*) AS c FROM t GROUP BY account HAVING SUM(amount) > 10
/// ORDER BY last_seen DESC`
#[test]
fn having_and_order_by_columns_are_included() {
    let mut sel = grouped(
        vec![
            item(col("account")),
            SelectItem::Expr { expr: count_star(), alias: Some("c".to_string()) },
        ],
        "t",
        col("account"),
    );
    sel.having = Some(binary(BinaryOp::Gt, sum(col("amount")), num(10)));
    sel.order_by.push(OrderKey { expr: col("last_seen"), descending: true });
    let w = wanted(&sel).unwrap();
    assert!(has(&w, "account"));
    assert!(has(&w, "amount"), "HAVING's aggregate arg must be wanted");
    assert!(has(&w, "last_seen"), "ORDER BY column must be wanted");
}

/// `SELECT account, label, COUNT(*) FROM t GROUP BY account`: `label` is read from
/// the group's representative row.
#[test]
fn non_aggregated_select_item_column_is_wanted() {
    let sel = grouped(
        vec![item(col("account")), item(col("label")), item(count_star())],
        "t",
        col("account"),
    );
    let w = wanted(&sel).unwrap();
    assert!(has(&w, "label"));
}

/// `SELECT meta.region, COUNT(*) FROM t GROUP BY meta.region`
#[test]
fn nested_path_wants_only_the_top_level_field() {
    let sel =
        grouped(vec![item(col("meta.region")), item(count_star())], "t", col("meta.region"));
    assert_eq!(wanted(&sel).unwrap(), vec!["meta".to_string()]);
}

/// `SELECT * FROM t`
#[test]
fn wildcard_disables_pruning() {
    let sel = select(vec![SelectItem::Wildcard], "t");
    assert!(has_wildcard(&sel));
    assert_eq!(wanted(&sel), None);
}

/// `SELECT account FROM t`
#[test]
fn non_grouped_select_disables_pruning() {
    let sel = select(vec![item(col("account"))], "t");
    assert!(!is_grouped(&sel));
    assert_eq!(wanted(&sel), None);
}

/// `SELECT * FROM t GROUP BY account TOP 3 BY amount DESC`
#[test]
fn group_top_k_disables_pruning() {
    let mut sel = grouped(vec![SelectItem::Wildcard], "t", col("account"));
    sel.group_top = Some(GroupTop { k: 3, by: col("amount"), ascending: false });
    assert_eq!(wanted(&sel), None);
    // Without the star it is still another consumer's business.
    let mut named = grouped(vec![item(col("account"))], "t", col("account"));
    named.group_top = Some(GroupTop { k: 3, by: col("amount"), ascending: false });
    assert_eq!(wanted(&named), None);
}

/// `SELECT t.account, COUNT(*) FROM t JOIN u ON t.id = u.tid GROUP BY t.account`
#[test]
fn joins_disable_pruning() {
    let mut sel = grouped(vec![item(col("t.account")), item(count_star())], "t", col("t.account"));
    sel.joins.push(Join {
        kind: JoinKind::Inner,
        table: "u".to_string(),
        alias: "u".to_string(),
        on: Some(binary(BinaryOp::Eq, col("t.id"), col("u.tid"))),
    });
    assert_eq!(wanted(&sel), None);
}

/// `SELECT account, COUNT(*) FROM t GROUP BY account
/// UNION SELECT account, COUNT(*) FROM t2 GROUP BY account`
#[test]
fn union_disables_pruning() {
    let mut sel = grouped(vec![item(col("account")), item(count_star())], "t", col("account"));
    sel.set_ops.push(SetOp {
        all: false,
        select: grouped(vec![item(col("account")), item(count_star())], "t2", col("account")),
    });
    assert_eq!(wanted(&sel), None);
}

/// `WHERE (a = 1 AND b > 2) OR NOT c IS NULL OR d IN (e, 5) OR f BETWEEN g AND h
/// OR i LIKE j OR upper(k) = 'X'`
#[test]
fn column_refs_walks_every_expr_shape() {
    let ab = binary(
        BinaryOp::And,
        binary(BinaryOp::Eq, col("a"), num(1)),
        binary(BinaryOp::Gt, col("b"), num(2)),
    );
    let c = Expr::Unary {
        op: UnaryOp::Not,
        expr: Box::new(Expr::IsNull { expr: Box::new(col("c")), negated: false }),
    };
    let d = Expr::InList {
        expr: Box::new(col("d")),
        list: vec![col("e"), num(5)],
        negated: false,
    };
    let f = Expr::Between {
        expr: Box::new(col("f")),
        lo: Box::new(col("g")),
        hi: Box::new(col("h")),
        negated: false,
    };
    let i = Expr::Like {
        expr: Box::new(col("i")),
        pattern: Box::new(col("j")),
        case_insensitive: false,
        negated: false,
    };
    let k = binary(
        BinaryOp::Eq,
        Expr::Func { name: "upper".to_string(), args: vec![col("k")] },
        text("X"),
    );
    let mut filter = ab;
    for e in [c, d, f, i, k] {
        filter = binary(BinaryOp::Or, filter, e);
    }
    let mut out = NameSet::new();
    column_refs(&filter, &mut out);
    for name in ["a", "b", "c", "d", "e", "f", "g", "h", "i", "j", "k"] {
        assert!(out.contains(name), "missing column ref: {name}");
    }
    assert!(!out.contains("upper"), "function name must not be treated as a column");
    assert_eq!(out.len(), 11);
}

#[test]
fn aggregates_are_found_anywhere_in_an_expression() {
    assert!(contains_aggregate(&binary(BinaryOp::Plus, num(1), sum(col("a")))));
    assert!(!contains_aggregate(&binary(BinaryOp::Plus, num(1), col("a"))));
    // An aggregate without GROUP BY still groups.
    assert!(is_grouped(&select(vec![item(count_star())], "t")));
    assert_eq!(wanted(&select(vec![item(sum(col("a")))], "t")), Some(vec!["a".to_string()]));
}

#[test]
fn a_name_set_keeps_each_name_once() {
    let mut s = NameSet::new();
    s.add_name("b".to_string());
    s.add_name("a".to_string());
    s.add_name("b".to_string());
    assert_eq!(names_of_set(&s), vec!["a".to_string(), "b".to_string()]);
    s.drop_name("a");
    assert_eq!(s.len(), 1);
    assert!(!s.contains("a"));
}
