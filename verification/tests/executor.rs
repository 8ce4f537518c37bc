use std::cell::RefCell;
use std::collections::{BTreeMap, BTreeSet};

use skaidb_engine::access::OrderRequest;
use skaidb_engine::aggregate::{decide_over_group, eval_over_group, AggOutcome};
use skaidb_engine::ast::{
    AggArg, AggFunc, BinaryOp, Expr, Join, JoinKind, OrderKey, Rrf, Select, SelectItem, SetOp,
};
use skaidb_engine::cluster::Cluster;
use skaidb_engine::error::EngineError;
use skaidb_engine::executor::{run, run_read, Inserted, Ran, Semantics, Shown};
use skaidb_engine::model::{copy_document, copy_value};
use skaidb_engine::order::Rank;
use skaidb_engine::projection::NameSet;
use skaidb_engine::statement::{Delete, Insert, Statement, Update};
use skaidb_engine::value::{Document, Value};

fn s(x: &str) -> String {
    x.to_string()
}

fn strings(xs: &[&str]) -> Vec<String> {
    xs.iter().map(|x| x.to_string()).collect()
}

fn col(path: &str) -> Expr {
    Expr::Column(s(path))
}

fn num(n: i64) -> Expr {
    Expr::Literal(Value::Int(n))
}

fn binary(op: BinaryOp, left: Expr, right: Expr) -> Expr {
    Expr::Binary { op, left: Box::new(left), right: Box::new(right) }
}

fn item(expr: Expr) -> SelectItem {
    SelectItem::Expr { expr, alias: None }
}

fn count_star() -> Expr {
    Expr::Aggregate { func: AggFunc::Count, arg: AggArg::Star }
}

fn select(from: &str, items: Vec<SelectItem>) -> Select {
    Select {
        distinct: false,
        items,
        from: s(from),
        from_alias: s(from),
        joins: Vec::new(),
        filter: None,
        group_by: Vec::new(),
        group_top: None,
        having: None,
        order_by: Vec::new(),
        limit: None,
        offset: None,
        limit_param: None,
        offset_param: None,
        set_ops: Vec::new(),
        nearest: None,
        rrf: None,
        rerank: None,
        after: None,
    }
}

fn lookup<'a>(d: &'a Document, path: &str) -> Option<&'a Value> {
    match path.split_once('.') {
        None => d.field(path),
        Some((head, rest)) => match d.field(head) {
            Some(Value::Document(inner)) => lookup(inner, rest),
            _ => None,
        },
    }
}

fn eval(e: &Expr, d: &Document) -> Result<Value, EngineError> {
    match e {
        Expr::Literal(v) => Ok(copy_value(v)),
        Expr::Column(p) => Ok(lookup(d, p).map(copy_value).unwrap_or(Value::Null)),
        Expr::Binary { op, left, right } => match (op, eval(left, d)?, eval(right, d)?) {
            (BinaryOp::Plus, Value::Int(a), Value::Int(b)) => Ok(Value::Int(a + b)),
            (BinaryOp::Eq, Value::Int(a), Value::Int(b)) => Ok(Value::Bool(a == b)),
            (BinaryOp::Gt, Value::Int(a), Value::Int(b)) => Ok(Value::Bool(a > b)),
            (BinaryOp::Eq | BinaryOp::Gt, _, _) => Ok(Value::Bool(false)),
            _ => Err(EngineError::Type(s("not a number"))),
        },
        _ => Err(EngineError::Unsupported(s("expression"))),
    }
}

fn decide(e: &Expr, d: &Document) -> Result<bool, EngineError> {
    match eval(e, d)? {
        Value::Bool(b) => Ok(b),
        _ => Err(EngineError::Type(s("not a condition"))),
    }
}

fn encode(vs: &Vec<&Value>) -> Vec<u8> {
    let mut out = Vec::new();
    for v in vs {
        match v {
            Value::Int(n) => {
                out.push(1);
                out.extend_from_slice(&((*n as u64) ^ (1 << 63)).to_be_bytes());
            }
            _ => out.push(0),
        }
    }
    out
}

fn rank(a: &Value, b: &Value) -> Rank {
    match (a, b) {
        (Value::Int(x), Value::Int(y)) if x < y => Rank::Less,
        (Value::Int(x), Value::Int(y)) if x > y => Rank::Greater,
        _ => Rank::Equal,
    }
}

fn compare(a: &Value, b: &Value) -> Option<Rank> {
    match (a, b) {
        (Value::Int(_), Value::Int(_)) => Some(rank(a, b)),
        _ => None,
    }
}

fn clock(v: &Value) -> Option<i64> {
    match v {
        Value::Int(n) => Some(*n),
        _ => None,
    }
}

fn finish(
    _: &AggFunc,
    _: &AggArg,
    _: &Vec<&Document>,
    _: AggOutcome,
) -> Result<Value, EngineError> {
    Err(EngineError::Unsupported(s("floating point")))
}

fn eval_group(e: &Expr, docs: &Vec<&Document>) -> Result<Value, EngineError> {
    eval_over_group(&eval, &encode, &compare, &clock, &finish, e, docs)
}

fn decide_group(e: &Expr, docs: &Vec<&Document>) -> Result<bool, EngineError> {
    decide_over_group(&eval, &encode, &compare, &clock, &finish, &decide, e, docs)
}

fn join_key(d: &Document, path: &String) -> Option<Vec<u8>> {
    match lookup(d, path) {
        Some(Value::Int(n)) => Some(n.to_be_bytes().to_vec()),
        _ => None,
    }
}

/// Tables in memory. It notes what it is asked and refuses the writes after
/// `room` of them.
struct Tables {
    rows: BTreeMap<String, BTreeMap<Vec<u8>, Document>>,
    room: usize,
    counts: bool,
    asked: RefCell<Vec<String>>,
    writes: Vec<String>,
    /// The rows of `t` by their `v`: a delete takes out the entry of the row
    /// that it is handed.
    by_v: BTreeSet<(i64, Vec<u8>)>,
}

impl Tables {
    fn new() -> Tables {
        let mut t = Tables {
            rows: BTreeMap::new(),
            room: usize::MAX,
            counts: false,
            asked: RefCell::new(Vec::new()),
            writes: Vec::new(),
            by_v: BTreeSet::new(),
        };
        t.rows.insert(s("t"), BTreeMap::new());
        t.rows.insert(s("u"), BTreeMap::new());
        for (id, v) in [(1, 30), (2, 10), (3, 20), (4, 10)] {
            t.add("t", &[("id", id), ("v", v)]);
        }
        for (id, w) in [(10, 7), (20, 8)] {
            t.add("u", &[("id", id), ("w", w)]);
        }
        t
    }

    fn add(&mut self, table: &str, fields: &[(&str, i64)]) {
        let mut d = Document::new();
        for (k, v) in fields {
            d.put_field(s(k), Value::Int(*v));
        }
        let key = encode(&vec![&Value::Int(fields[0].1)]);
        self.enter(table, &key, &d);
        self.rows.get_mut(table).unwrap().insert(key, d);
    }

    fn enter(&mut self, table: &str, key: &[u8], d: &Document) {
        if let ("t", Some(Value::Int(v))) = (table, d.field("v")) {
            self.by_v.insert((*v, key.to_vec()));
        }
    }

    fn leave(&mut self, table: &str, key: &[u8], d: &Document) {
        if let ("t", Some(Value::Int(v))) = (table, d.field("v")) {
            self.by_v.remove(&(*v, key.to_vec()));
        }
    }

    /// Whether the entries are those of the rows.
    fn in_step(&self) -> bool {
        let held = self.rows["t"].iter().filter_map(|(k, d)| match d.field("v") {
            Some(Value::Int(v)) => Some((*v, k.clone())),
            _ => None,
        });
        held.collect::<BTreeSet<_>>() == self.by_v
    }

    fn note(&self, what: String) {
        self.asked.borrow_mut().push(what);
    }

    fn asked(&self) -> Vec<String> {
        self.asked.borrow().clone()
    }

    fn take_in(&mut self, what: String) -> Result<(), EngineError> {
        if self.writes.len() == self.room {
            return Err(EngineError::Constraint(s("no room")));
        }
        self.writes.push(what);
        Ok(())
    }

    fn find(
        &self,
        table: &str,
        filter: &Option<Expr>,
    ) -> Result<Vec<(Vec<u8>, Document)>, EngineError> {
        let Some(rows) = self.rows.get(table) else {
            return Err(EngineError::TableNotFound(s(table)));
        };
        let mut out = Vec::new();
        for (k, d) in rows {
            if filter.as_ref().map_or(Ok(true), |e| decide(e, d))? {
                out.push((k.clone(), copy_document(d)));
            }
        }
        Ok(out)
    }
}

fn last(key: &[u8]) -> u8 {
    *key.last().unwrap()
}

impl Cluster for Tables {
    fn primary_key(&self, table: &str) -> Result<Vec<String>, EngineError> {
        self.find(table, &None)?;
        Ok(strings(&["id"]))
    }

    fn matching_rows(
        &self,
        table: &str,
        filter: &Option<Expr>,
    ) -> Result<Vec<(Vec<u8>, Document)>, EngineError> {
        self.note(format!("rows {table}"));
        self.find(table, filter)
    }

    fn matching_rows_ordered(
        &self,
        table: &str,
        filter: &Option<Expr>,
        order: Option<OrderRequest<'_>>,
        limit: Option<u64>,
    ) -> Result<(Vec<(Vec<u8>, Document)>, bool), EngineError> {
        if table == "deep" {
            return Err(EngineError::ResourceLimit(s("scan budget exceeded: 5 rows")));
        }
        let by = order.map(|o| format!(" by {} {} {}", o.col, o.descending, o.exact));
        self.note(format!("ordered {table}{} {limit:?}", by.unwrap_or_default()));
        Ok((self.find(table, filter)?, false))
    }

    fn matching_rows_projected(
        &self,
        table: &str,
        filter: &Option<Expr>,
        project: &NameSet,
    ) -> Result<Vec<(Vec<u8>, Document)>, EngineError> {
        self.note(format!("projected {table} v:{} id:{}", project.contains("v"), project.contains("id")));
        self.find(table, filter)
    }

    fn count_rows(&self, table: &str) -> Result<Option<usize>, EngineError> {
        self.note(format!("count {table}"));
        Ok(if self.counts { Some(self.find(table, &None)?.len()) } else { None })
    }

    fn count_filtered(&self, table: &str, _: &Option<Expr>) -> Result<Option<usize>, EngineError> {
        self.note(format!("covered {table}"));
        Ok(None)
    }

    fn count_matching(
        &self,
        table: &str,
        filter: &Option<Expr>,
    ) -> Result<Option<usize>, EngineError> {
        self.note(format!("counted {table}"));
        Ok(if self.counts { Some(self.find(table, filter)?.len()) } else { None })
    }

    fn distinct_values(
        &self,
        table: &str,
        col: &str,
        filter: &Option<Expr>,
    ) -> Result<Option<Vec<Value>>, EngineError> {
        self.note(format!("distinct {table} {col}"));
        if !self.counts {
            return Ok(None);
        }
        let mut out: Vec<i64> = Vec::new();
        for (_, d) in self.find(table, filter)? {
            if let Some(Value::Int(n)) = d.field(col) {
                if !out.contains(n) {
                    out.push(*n);
                }
            }
        }
        Ok(Some(out.into_iter().map(Value::Int).collect()))
    }

    fn ts_series_key(&self, table: &str) -> Result<Option<Vec<String>>, EngineError> {
        Ok(if table == "metrics" { Some(strings(&["host"])) } else { None })
    }

    fn put(&mut self, table: &str, key: &Vec<u8>, doc: &Document) -> Result<(), EngineError> {
        self.take_in(format!("put {}", last(key)))?;
        if let Some(before) = self.rows.get_mut(table).unwrap().insert(key.clone(), copy_document(doc)) {
            self.leave(table, key, &before);
        }
        self.enter(table, key, doc);
        Ok(())
    }

    fn put_batch(
        &mut self,
        table: &str,
        rows: &Vec<(Vec<u8>, Document)>,
    ) -> Result<(), EngineError> {
        rows.iter().try_for_each(|(k, d)| self.put(table, k, d))
    }

    fn delete(&mut self, table: &str, key: &Vec<u8>, doc: &Document) -> Result<(), EngineError> {
        self.take_in(format!("delete {}", last(key)))?;
        self.leave(table, key, doc);
        self.rows.get_mut(table).unwrap().remove(key);
        Ok(())
    }
}

fn ran(t: &mut Tables, stmt: &Statement) -> Result<Ran, EngineError> {
    let semantics = Semantics {
        eval,
        rank,
        group_key: encode,
        row_key: encode,
        group_eval: eval_group,
        group_decide: decide_group,
        decide,
        join_key,
        compare,
        clock,
        finish,
    };
    run(t, &semantics, stmt)
}

fn read(t: &Tables, sel: &Select) -> Result<Ran, EngineError> {
    let semantics = Semantics {
        eval,
        rank,
        group_key: encode,
        row_key: encode,
        group_eval: eval_group,
        group_decide: decide_group,
        decide,
        join_key,
        compare,
        clock,
        finish,
    };
    run_read(t, &semantics, sel)
}

fn shown(v: &Value) -> String {
    match v {
        Value::Int(n) => format!("{n}"),
        Value::Null => s("null"),
        _ => s("?"),
    }
}

fn queried(t: &mut Tables, sel: Select) -> Vec<String> {
    match ran(t, &Statement::Select(sel)).unwrap() {
        Ran::Shown(Shown::Rows(rs)) => rs
            .rows
            .iter()
            .map(|r| r.iter().map(shown).collect::<Vec<_>>().join(","))
            .collect(),
        _ => panic!("not rows"),
    }
}

fn refusal(t: &mut Tables, stmt: &Statement) -> EngineError {
    match ran(t, stmt) {
        Err(e) => e,
        Ok(_) => panic!("it ran"),
    }
}

#[test]
fn a_simple_query_gathers_its_rows() {
    let mut t = Tables::new();
    let mut sel = select("t", vec![item(col("id")), item(col("v"))]);
    sel.filter = Some(binary(BinaryOp::Gt, col("v"), num(10)));
    sel.order_by.push(OrderKey { expr: col("v"), descending: false });
    sel.limit = Some(5);
    sel.offset = Some(1);
    assert_eq!(queried(&mut t, sel), vec!["1,30"]);
    assert_eq!(t.asked(), vec!["ordered t by v false true Some(6)"]);
}

#[test]
fn a_read_answers_the_same_with_either_access() {
    let mut t = Tables::new();
    let sorted = || {
        let mut sel = select("t", vec![item(col("id")), item(col("v"))]);
        sel.filter = Some(binary(BinaryOp::Gt, col("v"), num(10)));
        sel.order_by.push(OrderKey { expr: col("v"), descending: false });
        sel
    };
    let grouped = || {
        let mut sel = select("t", vec![item(col("v")), item(count_star())]);
        sel.group_by.push(col("v"));
        sel.order_by.push(OrderKey { expr: col("v"), descending: false });
        sel
    };
    let queries: [fn() -> Select; 2] = [sorted, grouped];
    for sel in queries {
        let shared = match read(&t, &sel()).unwrap() {
            Ran::Shown(Shown::Rows(rs)) => rs,
            _ => panic!("not rows"),
        };
        let shared: Vec<String> = shared
            .rows
            .iter()
            .map(|r| r.iter().map(shown).collect::<Vec<_>>().join(","))
            .collect();
        assert_eq!(queried(&mut t, sel()), shared);
    }
    let missing = select("nope", vec![item(col("id"))]);
    let shared = read(&t, &missing).err().unwrap();
    let exclusive = refusal(&mut t, &Statement::Select(missing));
    assert_eq!(exclusive.message(), shared.message());
    // A search predicate goes to the search on both.
    let mut found = select("t", vec![item(col("id"))]);
    let words = vec![col("body"), Expr::Literal(Value::String(s("x")))];
    found.filter = Some(Expr::Func { name: s("match"), args: words });
    assert!(matches!(read(&t, &found), Ok(Ran::Search)));
    assert!(matches!(ran(&mut t, &Statement::Select(found)), Ok(Ran::Search)));
}

#[test]
fn a_lone_count_asks_for_a_count_first() {
    let mut t = Tables::new();
    t.counts = true;
    assert_eq!(queried(&mut t, select("t", vec![item(count_star())])), vec!["4"]);
    let mut sel = select("t", vec![item(count_star())]);
    sel.filter = Some(binary(BinaryOp::Eq, col("v"), num(10)));
    assert_eq!(queried(&mut t, sel), vec!["2"]);
    assert_eq!(t.asked(), vec!["count t", "covered t", "counted t"]);
    // Without a count the rows are gathered, the one field read of them.
    let mut t = Tables::new();
    let mut sel = select("t", vec![item(count_star())]);
    sel.filter = Some(binary(BinaryOp::Eq, col("v"), num(10)));
    assert_eq!(queried(&mut t, sel), vec!["2"]);
    assert_eq!(t.asked(), vec!["covered t", "counted t", "projected t v:true id:false"]);
}

#[test]
fn a_lone_distinct_column_asks_for_its_values() {
    let distinct = || {
        let mut sel = select("t", vec![item(col("v"))]);
        sel.distinct = true;
        sel.limit = Some(2);
        sel
    };
    let mut t = Tables::new();
    t.counts = true;
    assert_eq!(queried(&mut t, distinct()), vec!["30", "10"]);
    assert_eq!(t.asked(), vec!["distinct t v"]);
    let mut t = Tables::new();
    assert_eq!(queried(&mut t, distinct()), vec!["30", "10"]);
    assert_eq!(t.asked(), vec!["distinct t v", "ordered t None"]);
}

#[test]
fn groups_joins_unions_and_constants_are_run() {
    let mut t = Tables::new();
    let mut sel = select("t", vec![item(col("v")), item(count_star())]);
    sel.group_by.push(col("v"));
    sel.order_by.push(OrderKey { expr: col("v"), descending: false });
    assert_eq!(queried(&mut t, sel), vec!["10,2", "20,1", "30,1"]);
    assert_eq!(t.asked(), vec!["projected t v:true id:false"]);

    let mut t = Tables::new();
    let mut sel = select("t", vec![item(col("t.id")), item(col("u.w"))]);
    sel.joins.push(Join {
        kind: JoinKind::Left,
        table: s("u"),
        alias: s("u"),
        on: Some(binary(BinaryOp::Eq, col("t.v"), col("u.id"))),
    });
    sel.order_by.push(OrderKey { expr: col("t.id"), descending: false });
    assert_eq!(queried(&mut t, sel), vec!["1,null", "2,7", "3,8", "4,7"]);
    assert_eq!(t.asked(), vec!["rows t", "rows u"]);

    let mut t = Tables::new();
    let mut sel = select("t", vec![item(col("v"))]);
    sel.set_ops.push(SetOp { all: true, select: select("u", vec![item(col("id"))]) });
    sel.set_ops.push(SetOp { all: false, select: select("", vec![item(num(5))]) });
    sel.order_by.push(OrderKey { expr: col("v"), descending: true });
    sel.limit = Some(3);
    assert_eq!(queried(&mut t, sel), vec!["30", "20", "10"]);
    assert_eq!(t.asked(), vec!["rows t", "rows u"]);
    // A leg of another width is refused before the next one is read.
    let mut t = Tables::new();
    let mut sel = select("t", vec![item(col("v"))]);
    sel.set_ops.push(SetOp { all: true, select: select("u", vec![item(col("id")), item(col("w"))]) });
    sel.set_ops.push(SetOp { all: true, select: select("x", vec![item(col("id"))]) });
    assert!(matches!(
        refusal(&mut t, &Statement::Select(sel)),
        EngineError::Unsupported(m) if m == "UNION branches must have the same number of columns"
    ));

    assert_eq!(queried(&mut t, select("", vec![item(num(1)), item(num(2))])), vec!["1,2"]);
}

#[test]
fn queries_go_where_they_belong() {
    let mut t = Tables::new();
    let r = ran(&mut t, &Statement::Select(select("metrics", vec![SelectItem::Wildcard]))).unwrap();
    assert!(matches!(r, Ran::Shown(Shown::Timeseries(k)) if k == strings(&["host"])));
    let mut sel = select("t", vec![SelectItem::Wildcard]);
    sel.rrf = Some(Rrf { constant: 60 });
    assert!(matches!(ran(&mut t, &Statement::Select(sel)).unwrap(), Ran::Hybrid));
    let mut sel = select("t", vec![SelectItem::Wildcard]);
    sel.limit_param = Some(0);
    assert!(matches!(
        refusal(&mut t, &Statement::Select(sel)),
        EngineError::Type(m) if m == "unbound parameter (`?`) in LIMIT/OFFSET"
    ));
    let mut sel = select("deep", vec![SelectItem::Wildcard]);
    sel.filter = Some(binary(BinaryOp::Eq, col("v"), num(10)));
    assert!(matches!(
        refusal(&mut t, &Statement::Select(sel)),
        EngineError::ResourceLimit(m)
            if m == "scan budget exceeded: 5 rows [table deep, filter column(s): v]"
    ));
    assert!(matches!(refusal(&mut t, &Statement::Begin), EngineError::Unsupported(_)));
    assert!(t.writes.is_empty());
}

#[test]
fn rows_are_inserted_together() {
    let mut t = Tables::new();
    let ins = |table: &str, rows: Vec<Vec<Expr>>| {
        Statement::Insert(Insert { table: s(table), columns: strings(&["id", "v"]), rows })
    };
    let r = ran(&mut t, &ins("t", vec![vec![num(7), num(1)], vec![num(8), num(2)]])).unwrap();
    assert!(matches!(r, Ran::Inserted(Inserted::Rows(2))));
    assert_eq!(t.writes, vec!["put 7", "put 8"]);
    // A row without a key refuses the statement before anything is written.
    let null = Expr::Literal(Value::Null);
    let stmt = ins("t", vec![vec![num(9), num(1)], vec![null, num(2)]]);
    assert!(matches!(refusal(&mut t, &stmt), EngineError::Constraint(_)));
    assert_eq!(t.writes.len(), 2);
    let r = ran(&mut t, &ins("metrics", vec![vec![num(1), num(2)]])).unwrap();
    assert!(matches!(r, Ran::Inserted(Inserted::Timeseries(_))));
}

#[test]
fn an_update_writes_the_new_row_before_it_deletes_the_old() {
    let update = |path: &str, expr: Expr| {
        Statement::Update(Update {
            table: s("t"),
            assignments: vec![(s(path), expr)],
            filter: Some(binary(BinaryOp::Eq, col("v"), num(10))),
        })
    };
    let mut t = Tables::new();
    let r = ran(&mut t, &update("v", num(11))).unwrap();
    assert!(matches!(r, Ran::Changed(2)));
    assert_eq!(t.writes, vec!["put 2", "put 4"]);
    let mut t = Tables::new();
    let move_key = update("id", binary(BinaryOp::Plus, col("id"), num(100)));
    assert!(matches!(ran(&mut t, &move_key), Ok(Ran::Changed(2))));
    assert_eq!(t.writes, vec!["put 102", "delete 2", "put 104", "delete 4"]);
    // Cut short behind the first put, both rows are still there.
    let mut t = Tables::new();
    t.room = 1;
    assert!(matches!(refusal(&mut t, &move_key), EngineError::Constraint(_)));
    assert_eq!(t.writes, vec!["put 102"]);
    assert_eq!(t.rows["t"].len(), 5);
    let mut stmt = update("v", num(1));
    if let Statement::Update(u) = &mut stmt {
        u.table = s("metrics");
    }
    assert!(matches!(
        refusal(&mut t, &stmt),
        EngineError::Unsupported(m)
            if m == "time-series tables are append-only; UPDATE is not supported"
    ));
}

#[test]
fn a_delete_is_handed_the_row_that_goes() {
    // Every row moves to a new key with another `v`: the old entries go by the
    // rows as they were matched.
    let stmt = Statement::Update(Update {
        table: s("t"),
        assignments: vec![
            (s("id"), binary(BinaryOp::Plus, col("id"), num(100))),
            (s("v"), binary(BinaryOp::Plus, col("v"), num(1))),
        ],
        filter: None,
    });
    let mut t = Tables::new();
    assert!(t.in_step());
    assert!(matches!(ran(&mut t, &stmt), Ok(Ran::Changed(4))));
    assert_eq!(t.by_v.len(), 4);
    assert!(t.in_step());
    let all = Statement::Delete(Delete { table: s("t"), filter: None });
    assert!(matches!(ran(&mut t, &all), Ok(Ran::Changed(4))));
    assert!(t.by_v.is_empty());
}

#[test]
fn a_delete_removes_each_matching_row() {
    let delete = |table: &str| {
        Statement::Delete(Delete {
            table: s(table),
            filter: Some(binary(BinaryOp::Eq, col("v"), num(10))),
        })
    };
    let mut t = Tables::new();
    assert!(matches!(ran(&mut t, &delete("t")), Ok(Ran::Changed(2))));
    assert_eq!(t.writes, vec!["delete 2", "delete 4"]);
    assert_eq!(t.rows["t"].len(), 2);
    assert!(t.in_step());
    assert!(matches!(
        refusal(&mut t, &delete("metrics")),
        EngineError::Unsupported(m)
            if m == "time-series tables are append-only; expired data is dropped by RETENTION"
    ));
    assert!(matches!(refusal(&mut t, &delete("x")), EngineError::TableNotFound(_)));
}
