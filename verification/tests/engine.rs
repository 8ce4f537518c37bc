//! The library driven over a small in-memory row store.

use std::collections::{BTreeMap, BTreeSet};

use skaidb_engine::access::Access;
use skaidb_engine::ast::{BinaryOp, Expr};
use skaidb_engine::bytes::prefix_upper_bound;
use skaidb_engine::catalog::Catalog;
use skaidb_engine::local::local_count_matching;
use skaidb_engine::database::{Database, DdlOutcome};
use skaidb_engine::ddl_search::CreateSearchIndex;
use skaidb_engine::ddl_table::CreateTable;
use skaidb_engine::ddl_vector::VectorFacts;
use skaidb_engine::dispatch::{
    route_data, DataHandler, Executed, SchemaFacts, StatementSyncs,
};
use skaidb_engine::error::EngineError;
use skaidb_engine::execute::{filter_rows, insert_rows};
use skaidb_engine::hlc::Hlc;
use skaidb_engine::maintenance::{DecodedMaint, MaintTask};
use skaidb_engine::namespace::{qualify, DEFAULT_DATABASE};
use skaidb_engine::plan::{settle_choice, Cover};
use skaidb_engine::point_keys::index_value_tuples;
use skaidb_engine::projection::NameSet;
use skaidb_engine::recovery::{SearchStartup, VersionedRow};
use skaidb_engine::statement::{CreateIndex, Insert, Statement};
use skaidb_engine::value::{Document, Value};
use skaidb_engine::watermarks::AppliedWatermarks;

/// An order-preserving encoding of the few values the tests use.
fn encode(v: &Value) -> Vec<u8> {
    let mut out = Vec::new();
    match v {
        Value::Int(n) => {
            out.push(1);
            out.extend_from_slice(&((*n as u64) ^ (1 << 63)).to_be_bytes());
        }
        Value::String(s) => {
            out.push(2);
            out.extend_from_slice(s.as_bytes());
            out.push(0);
        }
        _ => out.push(0),
    }
    out
}

fn encode_all(vs: &Vec<&Value>) -> Vec<u8> {
    vs.iter().flat_map(|v| encode(v)).collect()
}

fn key(id: i64) -> Vec<u8> {
    encode(&Value::Int(id))
}

/// A row of an id and one more field as bytes, and back.
fn doc_of(id: i64, field: &str, v: &str) -> Vec<u8> {
    let mut out = id.to_be_bytes().to_vec();
    out.push(field.len() as u8);
    out.extend_from_slice(field.as_bytes());
    out.extend_from_slice(v.as_bytes());
    out
}

fn doc(id: i64, v: &str) -> Vec<u8> {
    doc_of(id, "v", v)
}

fn decode(bytes: &Vec<u8>) -> Option<Document> {
    let id = i64::from_be_bytes(bytes.get(..8)?.try_into().ok()?);
    let at = 9 + *bytes.get(8)? as usize;
    let field = String::from_utf8(bytes.get(9..at)?.to_vec()).ok()?;
    let v = String::from_utf8(bytes[at..].to_vec()).ok()?;
    let mut d = Document::new();
    d.put_field("id".to_string(), Value::Int(id));
    if !field.is_empty() {
        d.put_field(field, Value::String(v));
    }
    Some(d)
}

fn stored(d: &Document) -> Vec<u8> {
    let Some(Value::Int(id)) = d.field("id") else { panic!("not a test row") };
    for name in ["v", "body"] {
        if let Some(Value::String(v)) = d.field(name) {
            return doc_of(*id, name, v);
        }
    }
    doc_of(*id, "", "")
}

fn entries(paths: &Vec<String>, row_key: &Vec<u8>, d: &Document) -> Vec<Vec<u8>> {
    let null = Value::Null;
    let base: Vec<&Value> = paths.iter().map(|p| d.field(p).unwrap_or(&null)).collect();
    index_value_tuples(base, paths)
        .iter()
        .map(|t| {
            let mut e = encode_all(t);
            e.extend_from_slice(row_key);
            e
        })
        .collect()
}

fn same_value(a: &Value, b: &Value) -> bool {
    match (a, b) {
        (Value::Int(x), Value::Int(y)) => x == y,
        (Value::String(x), Value::String(y)) => x == y,
        _ => false,
    }
}

fn decide(e: &Expr, d: &Document) -> Result<bool, EngineError> {
    match e {
        Expr::Binary { op: BinaryOp::Eq, left, right } => match (&**left, &**right) {
            (Expr::Column(c), Expr::Literal(v)) => {
                Ok(d.field(c).is_some_and(|x| same_value(x, v)))
            }
            _ => Err(EngineError::Unsupported("expression".to_string())),
        },
        _ => Err(EngineError::Unsupported("expression".to_string())),
    }
}

fn evaluate_literal(e: &Expr, _d: &Document) -> Result<Value, EngineError> {
    match e {
        Expr::Literal(Value::Int(n)) => Ok(Value::Int(*n)),
        Expr::Literal(Value::String(s)) => Ok(Value::String(s.clone())),
        _ => Err(EngineError::Unsupported("expression".to_string())),
    }
}

fn equals(column: &str, v: Value) -> Option<Expr> {
    Some(Expr::Binary {
        op: BinaryOp::Eq,
        left: Box::new(Expr::Column(column.to_string())),
        right: Box::new(Expr::Literal(v)),
    })
}

fn text(s: &str) -> Value {
    Value::String(s.to_string())
}

fn facts() -> SchemaFacts {
    SchemaFacts {
        vector: VectorFacts { embedder_dim: None, metric_known: true, inferred_dim: None },
        search: Ok(()),
        credential: None,
        verifier_ok: true,
        role: None,
        privilege_known: true,
    }
}

fn create_table(name: &str) -> Statement {
    Statement::CreateTable(CreateTable {
        name: name.to_string(),
        if_not_exists: false,
        primary_key: vec!["id".to_string()],
        ttl_ms: None,
        memory: false,
        replication: None,
        nodes: Vec::new(),
        witness: false,
    })
}

fn create_index(name: &str, table: &str, path: &str) -> Statement {
    Statement::CreateIndex(CreateIndex {
        name: name.to_string(),
        table: table.to_string(),
        paths: vec![path.to_string()],
        if_not_exists: false,
        global: false,
        ready: false,
    })
}

/// A node: the versions of every row, the index entries with the rows they lead
/// to, and what the library keeps.
struct Node {
    db: Database,
    rows: BTreeMap<String, BTreeMap<Vec<u8>, Vec<(Hlc, Option<Vec<u8>>)>>>,
    index: BTreeMap<String, BTreeMap<Vec<u8>, Vec<u8>>>,
    marks: AppliedWatermarks,
    syncs: StatementSyncs<u64>,
    durable: BTreeSet<u64>,
    clock: u64,
    commits: u64,
}

impl Node {
    fn open(catalog: Catalog) -> Node {
        Node {
            db: Database::reopen(catalog),
            rows: BTreeMap::new(),
            index: BTreeMap::new(),
            marks: AppliedWatermarks::new(),
            syncs: StatementSyncs::new(),
            durable: BTreeSet::new(),
            clock: 1000,
            commits: 0,
        }
    }

    fn now(&mut self) -> Hlc {
        self.clock += 1;
        Hlc::new(self.clock, 0)
    }

    fn schema(&mut self, stmt: Statement) -> Result<DdlOutcome, EngineError> {
        let h = self.now();
        self.schema_at(stmt, h)
    }

    fn schema_at(&mut self, stmt: Statement, hlc: Hlc) -> Result<DdlOutcome, EngineError> {
        let (done, due) = self.db.execute_statement(stmt, facts(), hlc, false)?;
        for name in due.indexes {
            self.backfill(&name, 2);
        }
        match done {
            Executed::Schema(done) => Ok(done.outcome),
            _ => panic!("not a schema statement"),
        }
    }

    fn versions_after(&self, table: &str, after: Option<&Vec<u8>>, limit: usize) -> Vec<VersionedRow> {
        self.rows
            .get(table)
            .into_iter()
            .flatten()
            .filter(|(k, _)| after.is_none_or(|a| *k > a))
            .take(limit)
            .map(|(k, vs)| VersionedRow {
                key: k.clone(),
                hlc: vs.last().unwrap().0,
                value: vs.last().unwrap().1.clone(),
            })
            .collect()
    }

    fn backfill(&mut self, name: &str, limit: usize) {
        let table = self.db.index_owner_table(name, DEFAULT_DATABASE).unwrap();
        let mut after: Option<Vec<u8>> = None;
        loop {
            let rows = self.versions_after(&table, after.as_ref(), limit);
            let page = self
                .db
                .backfill_index_page(name, true, &rows, limit, &decode, &entries)
                .expect("the index is being built");
            for op in page.ops {
                self.index.entry(op.index).or_default().insert(op.key, op.row);
            }
            match page.next {
                Some(n) => after = Some(n),
                None => break,
            }
        }
    }

    fn get(&self, table: &str, key: &[u8]) -> Option<Vec<u8>> {
        self.rows.get(table)?.get(key)?.last()?.1.clone()
    }

    /// Appends a version and gives the task of its deferred maintenance.
    fn put_row_only(&mut self, table: &str, key: Vec<u8>, row: Option<Vec<u8>>, hlc: Hlc) -> Option<MaintTask> {
        let before = self.get(table, &key);
        let task = self.db.capture_maintenance(table, key.clone(), hlc, before, row.clone());
        self.rows
            .entry(table.to_string())
            .or_default()
            .entry(key)
            .or_default()
            .push((hlc, row));
        self.commits += 1;
        self.syncs.note(table.to_string(), self.commits);
        task
    }

    fn put(&mut self, table: &str, key: Vec<u8>, row: Option<Vec<u8>>, hlc: Hlc) {
        if let Some(task) = self.put_row_only(table, key, row, hlc) {
            self.apply(&task.decode(|b: &Vec<u8>| decode(b)));
        }
    }

    fn apply(&mut self, m: &DecodedMaint<Document>) {
        let plan = self.db.plan_maintenance(m, &entries);
        for op in plan.index_ops {
            let held = self.index.entry(op.index).or_default();
            if op.put {
                held.insert(op.key, op.row);
            } else {
                held.remove(&op.key);
            }
        }
    }

    /// The catalog, the rows and the indexes outlive a crash, and of the
    /// watermarks what was persisted.
    fn crash(self, persisted: &[u8]) -> Node {
        let mut node = Node::open(self.db.catalog);
        node.rows = self.rows;
        node.index = self.index;
        node.clock = self.clock;
        node.marks = AppliedWatermarks::load(persisted);
        node.recover();
        node
    }

    /// Replays the maintenance that the watermarks do not cover.
    fn recover(&mut self) {
        for table in self.db.table_names() {
            let mut all: Vec<VersionedRow> = Vec::new();
            for (k, vs) in self.rows.get(&table).into_iter().flatten() {
                for (h, v) in vs.iter().rev() {
                    all.push(VersionedRow { key: k.clone(), hlc: *h, value: v.clone() });
                }
            }
            let mark = self.marks.get(&table);
            let nothing = |_: &Vec<u8>| Ok(None);
            let owed = self.db.recover_deferred_maintenance(&table, mark, &all, &nothing);
            let Some((tasks, after)) = owed.unwrap() else { continue };
            for task in tasks {
                let m = task.decode(|b: &Vec<u8>| decode(b));
                self.apply(&m);
            }
            self.marks.set_applied_watermark(&table, after);
        }
    }

    fn docs(&self, table: &str) -> Vec<(Vec<u8>, Document)> {
        self.rows
            .get(table)
            .into_iter()
            .flatten()
            .filter_map(|(k, vs)| {
                let bytes = vs.last()?.1.clone()?;
                Some((k.clone(), decode(&bytes)?))
            })
            .collect()
    }

    fn row(&self, table: &str, key: &[u8]) -> Option<(Vec<u8>, Document)> {
        self.get(table, key).and_then(|b| decode(&b)).map(|d| (key.to_vec(), d))
    }

    /// The entries of an index between two tuples.
    fn scan(&self, index: &str, start: &[u8], end: Option<Vec<u8>>) -> Vec<(Vec<u8>, Vec<u8>)> {
        self.index
            .get(index)
            .into_iter()
            .flatten()
            .filter(|(e, _)| e.as_slice() >= start && end.as_ref().is_none_or(|x| *e < x))
            .map(|(e, k)| (e.clone(), k.clone()))
            .collect()
    }

    fn select(&self, table: &str, filter: &Option<Expr>) -> Result<Vec<(Vec<u8>, Document)>, EngineError> {
        let rows = match self.db.plan_gather(table, filter, false, None, false, &encode)? {
            Access::Point(t) => self.row(table, &encode_all(&t)).into_iter().collect(),
            Access::Index(choice) => match settle_choice(choice, usize::MAX) {
                Some(p) => {
                    let start = p.scan.start.map(|t| encode_all(&t)).unwrap_or_default();
                    let end = p.scan.end.and_then(|t| prefix_upper_bound(&encode_all(&t)));
                    self.scan(&p.index, &start, end)
                        .into_iter()
                        .filter_map(|(_, k)| self.row(table, &k))
                        .collect()
                }
                None => self.docs(table),
            },
            _ => self.docs(table),
        };
        filter_rows(&decide, filter, rows)
    }

    fn covered(&self, c: &Cover<'_>) -> usize {
        let mut start = encode_all(&c.start);
        if c.skip_start {
            start = prefix_upper_bound(&start).unwrap();
        }
        let mut end = Some(encode_all(&c.end));
        if !c.skip_end {
            end = prefix_upper_bound(&encode_all(&c.end));
        }
        self.scan(&c.index, &start, end).len()
    }

    /// Counts in the index where the filter is covered by one.
    fn count(&self, table: &str, filter: &Option<Expr>) -> usize {
        let mut open = NameSet::new();
        for name in self.db.stored_indexes() {
            open.add_name(name);
        }
        let rows: Vec<(Vec<u8>, Vec<u8>)> = self
            .rows
            .get(table)
            .into_iter()
            .flatten()
            .filter_map(|(k, vs)| Some((k.clone(), vs.last()?.1.clone()?)))
            .collect();
        let entries = |c: &Cover<'_>| Ok(self.covered(c));
        let counted = self.db.local_count_filtered(
            table, filter, false, false, &open, &encode, rows.len(), &entries,
        );
        if let Some(n) = counted.unwrap() {
            return n;
        }
        let read = |b: &Vec<u8>| Ok(decode(b));
        local_count_matching(&read, &decide, filter, &rows).unwrap()
    }

    fn insert(&mut self, ins: &Insert) -> Result<usize, EngineError> {
        let pk = self.db.table_primary_key(&ins.table)?;
        let rows = insert_rows(&evaluate_literal, &encode_all, &pk, &ins.columns, &ins.rows)?;
        let n = rows.len();
        for (k, d) in rows {
            let h = self.now();
            self.put(&ins.table, k, Some(stored(&d)), h);
        }
        Ok(n)
    }

    /// Runs a statement; its commits are synced before it returns.
    fn execute(&mut self, stmt: Statement) -> Result<usize, EngineError> {
        let res = self.run(stmt);
        let (now, later) = self.syncs.finish_statement();
        assert!(later.is_empty());
        self.durable.extend(now);
        res
    }

    /// Runs a statement; its commits go to the caller.
    fn execute_deferred(&mut self, stmt: Statement) -> (Result<usize, EngineError>, Vec<u64>) {
        self.syncs.defer();
        let res = self.run(stmt);
        let (now, later) = self.syncs.finish_statement();
        assert!(now.is_empty());
        (res, later)
    }

    fn run(&mut self, stmt: Statement) -> Result<usize, EngineError> {
        match route_data(&stmt)? {
            DataHandler::Insert => match stmt {
                Statement::Insert(ins) => self.insert(&ins),
                _ => unreachable!(),
            },
            _ => Err(EngineError::Unsupported("statement".to_string())),
        }
    }
}

fn insert(table: &str, rows: &[(i64, &str)]) -> Statement {
    insert_into(table, "v", rows)
}

fn insert_into(table: &str, column: &str, rows: &[(i64, &str)]) -> Statement {
    Statement::Insert(Insert {
        table: table.to_string(),
        columns: vec!["id".to_string(), column.to_string()],
        rows: rows
            .iter()
            .map(|(id, v)| vec![Expr::Literal(Value::Int(*id)), Expr::Literal(text(v))])
            .collect(),
    })
}

fn insert_id(table: &str, id: i64) -> Statement {
    Statement::Insert(Insert {
        table: table.to_string(),
        columns: vec!["id".to_string()],
        rows: vec![vec![Expr::Literal(Value::Int(id))]],
    })
}

fn node_with_index() -> Node {
    let mut node = Node::open(Catalog::new());
    node.schema(create_table("t")).unwrap();
    node.schema(create_index("i_v", "t", "v")).unwrap();
    node
}

/// Rows that landed without their maintenance, the crash before the applier ran,
/// are replayed into the index at the next open, the delete of a superseded
/// version's entries among it.
#[test]
fn deferred_maintenance_replays_after_crash() {
    let mut node = node_with_index();
    let t = qualify(DEFAULT_DATABASE, "t");
    let h0 = node.now();
    node.put(&t, key(1), Some(doc(1, "old")), h0);
    node.marks.set_applied_watermark(&t, h0);
    let persisted = node.marks.encode().unwrap();
    let h1 = node.now();
    let _lost1 = node.put_row_only(&t, key(1), Some(doc(1, "new")), h1);
    let h2 = node.now();
    let _lost2 = node.put_row_only(&t, key(2), Some(doc(2, "fresh")), h2);

    let node = node.crash(&persisted);
    let rows = node.select(&t, &equals("v", text("fresh"))).unwrap();
    assert_eq!(rows.len(), 1, "replayed index entry for row 2");
    assert_eq!(rows[0].0, key(2));
    assert_eq!(node.count(&t, &equals("v", text("old"))), 0, "superseded entry replayed away");
    assert_eq!(node.count(&t, &equals("v", text("new"))), 1);
    assert_eq!(node.marks.get(&t), Some(h2));
}

/// A row is visible to point reads at once, before any maintenance runs.
#[test]
fn row_visible_before_maintenance() {
    let mut node = node_with_index();
    let t = qualify(DEFAULT_DATABASE, "t");
    let h = node.now();
    let task = node.put_row_only(&t, key(7), Some(doc(7, "x")), h);
    assert!(task.is_some(), "indexed table produces a maintenance task");
    let rows = node.select(&t, &equals("id", Value::Int(7))).unwrap();
    assert_eq!(rows.len(), 1, "PK read sees the row pre-maintenance");
    assert_eq!(node.count(&t, &equals("v", text("x"))), 0);
    let m = task.expect("checked above").decode(|b: &Vec<u8>| decode(b));
    node.apply(&m);
    assert_eq!(node.count(&t, &equals("v", text("x"))), 1);
}

/// A deferred search index refuses searches until its pages are through, and
/// then holds every row.
#[test]
fn deferred_search_startup_pages_to_live() {
    let mut node = Node::open(Catalog::new());
    node.schema(create_table("t")).unwrap();
    node.schema(Statement::CreateSearchIndex(CreateSearchIndex {
        name: "s_body".to_string(),
        table: "t".to_string(),
        paths: vec!["body".to_string()],
        options: Vec::new(),
        if_not_exists: false,
    }))
    .unwrap();
    for i in 0..300 {
        node.execute(insert_into("t", "body", &[(i, &format!("findable text {i}"))])).unwrap();
    }
    let persisted = node.marks.encode().unwrap();
    let mut node = node.crash(&persisted);
    let opened = Database::open_with_options(
        node.db.catalog,
        Some(persisted),
        None,
        true,
        &|_: &str| true,
        &|_: &String| None,
        |_: &Vec<u8>| true,
    );
    node.db = opened.db;
    let startup = SearchStartup::Deferred { clear: true, from: None };
    assert_eq!(opened.searches, vec![("s_body".to_string(), startup)]);
    let pending = node.db.take_pending_search_catchups();
    assert_eq!(pending.len(), 1, "one search catch-up pending");
    let (name, mark) = &pending[0];
    let mut indexed: BTreeSet<Vec<u8>> = BTreeSet::new();
    let err = node.db.check_search("s_body", "t", true, true).unwrap_err();
    assert!(err.message().contains("rebuilding"), "{err:?}");
    // Rows themselves are fully readable meanwhile.
    assert_eq!(node.count("t", &None), 300);
    let mut after: Option<Vec<u8>> = None;
    let mut pages = 0;
    loop {
        let rows = node.versions_after("t", after.as_ref(), 64);
        let page = node.db.search_catchup_page(name, true, &rows, 64, *mark).unwrap();
        pages += 1;
        assert_eq!(node.db.check_search("s_body", "t", true, true).is_ok(), page.done);
        for p in page.places {
            indexed.insert(rows[p].key.clone());
        }
        match page.next {
            Some(n) => after = Some(n),
            None => {
                assert!(page.done);
                break;
            }
        }
    }
    assert_eq!(pages, 5);
    assert!(node.db.check_search("s_body", "t", true, true).is_ok());
    assert_eq!(indexed.len(), 300, "catch-up indexed every row");
    let found = indexed.iter().filter(|k| node.get("t", k).is_some()).count();
    assert_eq!(found, 300, "every indexed key leads to its row");
}

/// After every write the indexes hold exactly the entries of the rows, and an
/// index gives the rows that a walk through the table gives.
#[test]
fn maintained_indexes_stay_in_step_with_the_rows() {
    let mut node = Node::open(Catalog::new());
    node.schema(create_table("t")).unwrap();
    node.schema(create_index("i_v", "t", "v")).unwrap();
    node.schema(create_index("i_id", "t", "id")).unwrap();
    let writes = [
        (1, Some("a")),
        (2, Some("b")),
        (3, Some("a")),
        (2, Some("a")),
        (1, None),
        (3, Some("c")),
        (1, Some("a")),
        (4, None),
    ];
    for (id, v) in writes {
        let key = encode_all(&vec![&Value::Int(id)]);
        let h = node.now();
        node.put("t", key, v.map(|v| doc(id, v)), h);
        let live: Vec<(Vec<u8>, Document)> = node.rows["t"]
            .iter()
            .filter_map(|(k, vs)| Some((k.clone(), decode(vs.last()?.1.as_ref()?)?)))
            .collect();
        for (name, path) in [("i_v", "v"), ("i_id", "id")] {
            let held: BTreeMap<Vec<u8>, Vec<u8>> = live
                .iter()
                .flat_map(|(k, d)| {
                    entries(&vec![path.to_string()], k, d).into_iter().map(|e| (e, k.clone()))
                })
                .collect();
            assert_eq!(node.index.get(name).cloned().unwrap_or_default(), held);
        }
        let wanted = text("a");
        let prefix = encode_all(&vec![&wanted]);
        let walked: BTreeSet<&Vec<u8>> = live
            .iter()
            .filter(|(_, d)| d.field("v").is_some_and(|x| same_value(x, &wanted)))
            .map(|(k, _)| k)
            .collect();
        let found: BTreeSet<&Vec<u8>> = node
            .index
            .get("i_v")
            .into_iter()
            .flatten()
            .filter(|(e, _)| e.starts_with(&prefix))
            .map(|(_, k)| k)
            .collect();
        assert_eq!(found, walked);
    }
}

/// A drop tombstone beats a stale recreate and yields to a newer one.
#[test]
fn drop_tombstone_blocks_stale_recreate() {
    let mut node = Node::open(Catalog::new());
    node.schema(create_table("t")).unwrap();
    node.schema(Statement::DropTable { name: "t".to_string(), if_exists: false }).unwrap();
    assert!(!node.db.has_table("t"), "dropped");

    node.schema_at(create_table("t"), Hlc::new(1, 0)).unwrap();
    assert!(!node.db.has_table("t"), "stale create must not resurrect a dropped table");

    node.schema_at(create_table("t"), Hlc::new(u64::MAX / 2, 0)).unwrap();
    assert!(node.db.has_table("t"), "a newer create must win over the tombstone");
}

/// A stale drop must not remove a table created more recently.
#[test]
fn stale_drop_does_not_remove_newer_table() {
    let mut node = Node::open(Catalog::new());
    node.schema(create_table("t")).unwrap();
    let drop = Statement::DropTable { name: "t".to_string(), if_exists: true };
    let outcome = node.schema_at(drop, Hlc::new(1, 0)).unwrap();
    assert_eq!(outcome, DdlOutcome::Stale);
    assert!(node.db.has_table("t"), "a stale drop must not remove a newer table");
}

/// The deferred entry point hands the statement's commits to the caller, and
/// the rows outlive a reopen.
#[test]
fn deferred_writes_sync_outside_and_survive_reopen() {
    let mut node = Node::open(Catalog::new());
    node.schema(create_table("t")).unwrap();
    let (res, pending) = node.execute_deferred(insert("t", &[(1, "a"), (2, "b")]));
    res.unwrap();
    assert!(!pending.is_empty(), "a write statement must hand back its commits to sync");
    // One engine was written to: its last commit covers the one before.
    assert_eq!(pending, vec![2]);
    assert!(node.durable.is_empty());
    // Read-your-writes holds before the sync.
    assert_eq!(node.count("t", &None), 2);
    node.durable.extend(pending);
    let persisted = node.marks.encode().unwrap();
    let node = node.crash(&persisted);
    assert_eq!(node.count("t", &None), 2);
}

/// Deferral ends with its statement.
#[test]
fn deferred_mode_resets_after_the_statement() {
    let mut node = Node::open(Catalog::new());
    node.schema(create_table("t")).unwrap();
    let (res, pending) = node.execute_deferred(insert_id("t", 1));
    res.unwrap();
    node.durable.extend(pending);
    assert!(node.syncs.deferred.is_none(), "deferred mode must not leak past the statement");
    // A plain statement afterwards syncs before it returns.
    node.execute(insert_id("t", 2)).unwrap();
    assert!(node.durable.contains(&2));
    assert_eq!(node.syncs.pending.len(), 0);
}

/// A statement that fails hands back what it applied, and its error surfaces.
#[test]
fn error_paths_still_hand_back_applied_commits() {
    let mut node = Node::open(Catalog::new());
    node.schema(create_table("t")).unwrap();
    let (res, pending) = node.execute_deferred(insert_id("missing", 1));
    assert!(matches!(res, Err(EngineError::TableNotFound(n)) if n == "missing"));
    assert!(pending.is_empty());
    // Commits noted before the failure still come out.
    node.syncs.defer();
    node.syncs.note("t".to_string(), 7);
    let (now, later) = node.syncs.finish_statement();
    assert!(now.is_empty());
    assert_eq!(later, vec![7]);
    assert!(node.syncs.deferred.is_none());
}

/// A later index finds the rows that were there before it.
#[test]
fn an_index_is_filled_from_the_rows_of_its_table() {
    let mut node = Node::open(Catalog::new());
    node.schema(create_table("t")).unwrap();
    for i in 0..5 {
        node.execute(insert("t", &[(i, if i % 2 == 0 { "even" } else { "odd" })])).unwrap();
    }
    assert_eq!(node.schema(create_index("i_v", "t", "v")).unwrap(), DdlOutcome::Applied);
    assert_eq!(node.count("t", &equals("v", text("even"))), 3);
    assert_eq!(node.select("t", &equals("v", text("odd"))).unwrap().len(), 2);
    let h = node.now();
    node.put("t", key(4), None, h);
    assert_eq!(node.count("t", &equals("v", text("even"))), 2);
}

/// A tombstone whose watermark is behind it is replayed as a delete.
#[test]
fn a_lost_delete_is_replayed() {
    let mut node = node_with_index();
    let h0 = node.now();
    node.put("t", key(1), Some(doc(1, "x")), h0);
    node.marks.set_applied_watermark("t", h0);
    let persisted = node.marks.encode().unwrap();
    let h1 = node.now();
    let task = node.put_row_only("t", key(1), None, h1).unwrap();
    assert!(task.new.is_none());
    assert_eq!(task.old, Some(doc(1, "x")));
    let node = node.crash(&persisted);
    assert_eq!(node.count("t", &equals("v", text("x"))), 0);
    assert!(node.select("t", &equals("id", Value::Int(1))).unwrap().is_empty());
}

#[test]
fn a_table_without_indexes_owes_no_maintenance() {
    let mut node = Node::open(Catalog::new());
    node.schema(create_table("t")).unwrap();
    let h = node.now();
    assert!(node.put_row_only("t", key(1), Some(doc(1, "x")), h).is_none());
    assert_eq!(node.db.recovers("t", Some(h)), None);
}

/// An index filled two rows at a time holds what one filled in a single page
/// does.
#[test]
fn an_index_is_filled_alike_in_any_pages() {
    let filled = |limit: usize| {
        let mut node = Node::open(Catalog::new());
        node.schema(create_table("t")).unwrap();
        for i in 0..7 {
            node.execute(insert_into("t", "v", &[(i, &format!("word {}", i % 3))])).unwrap();
        }
        let h = node.now();
        node.db.execute_statement(create_index("i_v", "t", "v"), facts(), h, true).unwrap();
        node.backfill("i_v", limit);
        node.index.remove("i_v").expect("entries were put")
    };
    let paged = filled(2);
    assert_eq!(paged.len(), 7);
    assert_eq!(paged, filled(100));
}
