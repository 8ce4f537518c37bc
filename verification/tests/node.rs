use skaidb_engine::access::{OrderRequest, WalkKind};
use skaidb_engine::alter::AlterAction;
use skaidb_engine::ast::Expr;
use skaidb_engine::backfill::{gidx_produced, page_cursor, row_produces, wire_row};
use skaidb_engine::catalog::Catalog;
use skaidb_engine::database::{Database, DdlOutcome};
use skaidb_engine::ddl_search::CreateSearchIndex;
use skaidb_engine::ddl_table::CreateTable;
use skaidb_engine::ddl_vector::{CreateVectorIndex, VectorFacts};
use skaidb_engine::describe::{describe_key_cell, describe_sample, FieldRegistry, FieldTypes};
use skaidb_engine::dispatch::{
    explain_score_query, route_data, route_read_statement, route_session, route_session_read,
    route_statement, statement_is_read_only, DataHandler, Executed, Handler, ReadHandler,
    SchemaFacts, SessionEffect, SessionHandler, SessionReadHandler,
};
use skaidb_engine::embed_queue::{vector_write, EmbedQueue, VectorWatermarks, VectorWrite};
use skaidb_engine::error::EngineError;
use skaidb_engine::gather::{gather_rows_planned, Gathering};
use skaidb_engine::gidx::gidx_entry_key;
use skaidb_engine::hlc::Hlc;
use skaidb_engine::journal::{encode_txn_journal, TxnWrites};
use skaidb_engine::local::{
    keys_present, local_count_matching, local_distinct_values, local_scan_filtered_keys,
    local_scan_since_page,
};
use skaidb_engine::maintenance::{replicated_row_error, IndexOp};
use skaidb_engine::order::Rank;
use skaidb_engine::projection::NameSet;
use skaidb_engine::recovery::{
    catch_up, search_replay, search_startup, vector_replay, CatchUp, ReplayAction, SearchStartup,
    VersionedRow,
};
use skaidb_engine::schema_sync::{table_with_options, ts_create_ddl};
use skaidb_engine::show::{Cell, IndexClass, Listing, LiveIndexes};
use skaidb_engine::sorted_map::{RowId, SortedMap};
use skaidb_engine::statement::{
    CreateGeoIndex, CreateIndex, CreateRollup, CreateTimeseries, Delete, Statement,
};
use skaidb_engine::stats::{
    release_floor, release_memory_under_pressure, show_status, table_stats, ts_table_stats,
    EngineStats, InventorySearch, NodeUsage, SearchStats, SeriesUsage, TableUsage, Usage,
};
use skaidb_engine::timeseries::{
    bucket_start, rollup_labels, rollup_parts, touched_buckets, RollupPart, StoreRange,
};
use skaidb_engine::value::{Document, Value};

fn at(n: u64) -> Hlc {
    Hlc::new(n, 0)
}

fn s(x: &str) -> String {
    x.to_string()
}

fn strings(xs: &[&str]) -> Vec<String> {
    xs.iter().map(|x| x.to_string()).collect()
}

fn key(x: &str) -> Vec<u8> {
    x.as_bytes().to_vec()
}

fn table(name: &str) -> CreateTable {
    CreateTable {
        name: s(name),
        if_not_exists: false,
        primary_key: strings(&["id", "at"]),
        ttl_ms: Some(1000),
        memory: false,
        replication: None,
        nodes: Vec::new(),
        witness: false,
    }
}

/// Two databases; a table, a time-series table with a rollup, and an index of
/// every sort.
fn db() -> Database {
    let mut db = Database::new(Catalog::new());
    db.create_database("shop", true, false, at(1)).unwrap();
    db.create_table(table("t"), at(2)).unwrap();
    db.create_table(table("shop\u{1f}u"), at(3)).unwrap();
    db.create_timeseries_table("m", strings(&["host"]), Some(5000), 7, false, at(4)).unwrap();
    db.create_rollup("r", "m", 60_000, None, false, at(5)).unwrap();
    db.create_index("i", "t", strings(&["v[]"]), false, false, false, at(6)).unwrap();
    db.create_geo_index("g", "t", "loc", false, at(7)).unwrap();
    db.create_search_index(
        CreateSearchIndex {
            name: s("f"),
            table: s("t"),
            paths: strings(&["body"]),
            options: Vec::new(),
            if_not_exists: false,
        },
        Ok(()),
        at(8),
    )
    .unwrap();
    db.create_vector_index(
        CreateVectorIndex {
            name: s("e"),
            table: s("t"),
            path: s("emb"),
            metric: s("l2"),
            dim: Some(3),
            embed: true,
            quantized: false,
            if_not_exists: false,
        },
        VectorFacts { embedder_dim: Some(3), metric_known: true, inferred_dim: None },
        at(9),
    )
    .unwrap();
    db
}

fn text(c: &Cell) -> String {
    match c {
        Cell::Null => s("null"),
        Cell::Bool(b) => format!("{b}"),
        Cell::Int(n) => format!("{n}"),
        Cell::Text(t) => t.clone(),
    }
}

fn lines(l: &Listing) -> Vec<String> {
    l.rows.iter().map(|r| r.iter().map(text).collect::<Vec<_>>().join("|")).collect()
}

#[test]
fn tables_and_databases_are_listed_by_name() {
    let db = db();
    let l = db.show_tables_in("default");
    assert_eq!(
        l.columns,
        strings(&["table", "primary_key", "replication", "nodes", "witness", "transition", "kind"])
    );
    let names: Vec<String> = l.rows.iter().map(|r| text(&r[0])).collect();
    assert_eq!(names, strings(&["m", "r", "t"]));
    let kinds: Vec<String> = l.rows.iter().map(|r| text(&r[6])).collect();
    assert_eq!(kinds, strings(&["timeseries", "rollup", "row"]));
    let l = db.show_tables_in("shop");
    assert_eq!(l.rows.len(), 1);
    assert_eq!(text(&l.rows[0][0]), "u");
    assert_eq!(db.show_tables().columns, strings(&["table", "primary_key"]));
    assert_eq!(lines(&db.show_databases("shop")), strings(&["default|", "shop|*"]));
}

#[test]
fn indexes_are_listed_with_their_health() {
    let mut db = db();
    let mut live = LiveIndexes {
        stores: NameSet::new(),
        vectors: NameSet::new(),
        searches: NameSet::new(),
    };
    live.searches.add_name(s("f"));
    db.building_searches.add_name(s("f"));
    assert_eq!(db.index_local_health(&live, "f", IndexClass::Search), "building");
    assert_eq!(db.index_local_health(&live, "i", IndexClass::Secondary), "building");
    db.finish_index_backfill("i");
    assert_eq!(db.index_local_health(&live, "i", IndexClass::Secondary), "missing");
    live.stores.add_name(s("i"));
    assert_eq!(db.index_local_health(&live, "i", IndexClass::Secondary), "ok");
    let l = db.show_indexes(&live, None, &strings(&["standard"]));
    assert_eq!(l.columns, strings(&["index", "table", "kind", "columns", "local"]));
    let kinds: Vec<String> = l.rows.iter().map(|r| format!("{} {}", text(&r[0]), text(&r[2]))).collect();
    assert_eq!(
        kinds,
        strings(&["e vector(l2, dim=3)", "f search(standard)", "g geo", "i secondary"])
    );
}

#[test]
fn a_table_is_described() {
    let db = db();
    let l = db.describe("t").unwrap();
    assert_eq!(l.columns, strings(&["column", "key", "indexes"]));
    let shown = lines(&l);
    assert!(shown.contains(&s("id|primary key (1/2)|")));
    assert!(shown.contains(&s("at|primary key (2/2)|")));
    assert!(shown.contains(&s("v||i (secondary, building)")));
    assert!(shown.contains(&s("body||f (search)")));
    assert!(matches!(db.describe("nope"), Err(EngineError::TableNotFound(_))));
    let mut types = FieldTypes::new();
    let mut d = Document::new();
    d.put_field(s("v"), Value::Int(1));
    types.note_document(&d);
    let mut d = Document::new();
    d.put_field(s("v"), Value::String(s("x")));
    types.note_document(&d);
    let full = lines(&db.describe_full("t", &types).unwrap());
    assert!(full.contains(&s("v|int | string||i (secondary, building)")));
    assert_eq!(describe_key_cell(&strings(&["id"]), "id"), "primary key");
    assert_eq!(describe_key_cell(&strings(&["id"]), "x"), "");
    assert_eq!(describe_sample(Some(5), false), 5);
    assert_eq!(describe_sample(Some(5), true), usize::MAX);
}

#[test]
fn described_types_are_cached_until_a_write() {
    let mut cache = FieldRegistry::new();
    assert!(cache.lookup("t", 1, false).is_none());
    cache.remember("t", 1, false, FieldTypes::new());
    assert!(cache.lookup("t", 1, false).is_some());
    assert!(cache.lookup("t", 2, false).is_none());
    assert!(cache.lookup("t", 1, true).is_none());
    cache.remember("x", 1, true, FieldTypes::new());
    assert!(cache.lookup("x", 1, false).is_none());
}

#[test]
fn the_schema_is_written_as_statements() {
    let db = db();
    let lines = db.schema_ddl(&vec![s("")]);
    let ddl: Vec<String> = lines.iter().map(|(d, q)| format!("{d}: {q}")).collect();
    assert!(ddl.contains(&s("default: CREATE DATABASE IF NOT EXISTS shop")));
    assert!(ddl.contains(&s(
        "default: CREATE TABLE IF NOT EXISTS t (PRIMARY KEY (id, at)) WITH (ttl = 1000)"
    )));
    assert!(ddl.contains(&s(
        "shop: CREATE TABLE IF NOT EXISTS u (PRIMARY KEY (id, at)) WITH (ttl = 1000)"
    )));
    assert!(ddl.contains(&s(
        "default: CREATE TIMESERIES TABLE IF NOT EXISTS m (SERIES KEY (host), RETENTION 5000ms, OOO 7ms)"
    )));
    assert!(ddl.contains(&s("default: CREATE ROLLUP IF NOT EXISTS r ON m BUCKET 60000ms")));
    assert!(ddl.iter().any(|q| q.starts_with("default: CREATE INDEX IF NOT EXISTS i ON t")));
    let sync = db.schema_sync(&vec![s("")]);
    assert!(sync.iter().any(|(_, q, h)| q.contains("TABLE IF NOT EXISTS t ") && *h == at(2)));
    assert_eq!(table_with_options(db.catalog.tables.get(&s("t")).unwrap()), " WITH (ttl = 1000)");
    assert!(ts_create_ddl("m", db.ts_table_def("m").unwrap()).ends_with("OOO 7ms)"));
}

#[test]
fn a_drop_is_written_as_a_tombstone() {
    let mut db = db();
    db.drop_table("shop\u{1f}u", false, at(20)).unwrap();
    let sync = db.schema_sync(&vec![s("")]);
    assert!(sync
        .iter()
        .any(|(d, q, h)| d == "shop" && q == "DROP TABLE IF EXISTS u" && *h == at(20)));
}

#[test]
fn a_replayed_schema_is_written_the_same() {
    let facts = || SchemaFacts {
        vector: VectorFacts { embedder_dim: None, metric_known: true, inferred_dim: None },
        search: Ok(()),
        credential: None,
        verifier_ok: true,
        role: None,
        privilege_known: true,
    };
    let mut node = Database::new(Catalog::new());
    node.create_database("shop", true, false, at(1)).unwrap();
    node.create_table(table("t"), at(2)).unwrap();
    node.create_table(table("shop\u{1f}u"), at(3)).unwrap();
    node.create_table(table("gone"), at(4)).unwrap();
    node.create_timeseries_table("m", strings(&["host"]), Some(5000), 7, false, at(5)).unwrap();
    node.create_rollup("z", "m", 60_000, None, false, at(6)).unwrap();
    node.create_rollup("r", "m", 120_000, Some(9), false, at(7)).unwrap();
    node.create_index("i", "t", strings(&["v[]"]), false, false, false, at(8)).unwrap();
    node.create_index("lost", "gone", strings(&["v"]), false, false, false, at(9)).unwrap();
    node.create_geo_index("g", "t", "loc", false, at(10)).unwrap();
    let search = || CreateSearchIndex {
        name: s("f"),
        table: s("t"),
        paths: strings(&["body"]),
        options: vec![(s("analyzer"), s("english"))],
        if_not_exists: true,
    };
    node.create_search_index(search(), Ok(()), at(11)).unwrap();
    let vector = || CreateVectorIndex {
        name: s("e"),
        table: s("t"),
        path: s("emb"),
        metric: s("l2"),
        dim: Some(3),
        embed: false,
        quantized: true,
        if_not_exists: true,
    };
    node.create_vector_index(vector(), facts().vector, at(12)).unwrap();
    node.finish_index_backfill("i");
    node.drop_table("gone", false, at(13)).unwrap();
    let clauses = vec![s(" WITH (analyzer = 'english')")];
    let sent = node.schema_sync(&clauses);

    let plain = |name: &str| {
        Statement::CreateTable(CreateTable { if_not_exists: true, witness: true, ..table(name) })
    };
    let rollup = |name: &str, bucket_ms, retention_ms| {
        Statement::CreateRollup(CreateRollup {
            name: s(name),
            table: s("m"),
            bucket_ms,
            retention_ms,
            if_not_exists: true,
        })
    };
    let stmts = vec![
        Statement::CreateDatabase { name: s("shop"), if_not_exists: true },
        plain("shop\u{1f}u"),
        plain("t"),
        Statement::CreateTimeseriesTable(CreateTimeseries {
            name: s("m"),
            series_key: strings(&["host"]),
            retention_ms: Some(5000),
            ooo_ms: Some(7),
            if_not_exists: true,
        }),
        rollup("z", 60_000, None),
        rollup("r", 120_000, Some(9)),
        Statement::CreateIndex(CreateIndex {
            name: s("i"),
            table: s("t"),
            paths: strings(&["v[]"]),
            if_not_exists: true,
            global: false,
            ready: false,
        }),
        Statement::CreateVectorIndex(vector()),
        Statement::CreateSearchIndex(search()),
        Statement::CreateGeoIndex(CreateGeoIndex {
            name: s("g"),
            table: s("t"),
            path: s("loc"),
            if_not_exists: true,
        }),
        Statement::DropIndex { name: s("lost"), if_exists: true },
        Statement::DropTable { name: s("gone"), if_exists: true },
    ];
    assert_eq!(sent.len(), stmts.len());
    let mut peer = Database::new(Catalog::new());
    for (stmt, (_, _, h)) in stmts.into_iter().zip(&sent) {
        assert!(peer.execute_session_statement(stmt, facts(), true, *h, Vec::new(), true).is_ok());
    }
    assert_eq!(peer.schema_sync(&clauses), sent);

    // So is one whose table and column were renamed.
    node.alter_table("t", &AlterAction::RenameTable { new_name: s("w") }).unwrap();
    let column = AlterAction::RenameColumn { from: s("emb"), to: s("vec") };
    node.alter_table("w", &column).unwrap();
    let sent = node.schema_sync(&clauses);
    let on_w = sent.iter().filter(|(_, q, _)| q.contains(" ON w (")).count();
    assert_eq!(on_w, 4);
    let mut peer = Database::new(Catalog::new());
    let stmts = vec![
        plain("w"),
        Statement::CreateVectorIndex(CreateVectorIndex { table: s("w"), path: s("vec"), ..vector() }),
    ];
    for stmt in stmts {
        let name = match &stmt {
            Statement::CreateTable(_) => "TABLE IF NOT EXISTS w ",
            _ => "VECTOR INDEX",
        };
        let (_, line, h) = sent.iter().find(|(_, q, _)| q.contains(name)).unwrap();
        assert!(peer.execute_session_statement(stmt, facts(), true, *h, Vec::new(), true).is_ok());
        assert!(peer.schema_sync(&Vec::new()).iter().any(|(_, q, k)| q == line && k == h));
    }
}

fn no_usage() -> NodeUsage {
    NodeUsage {
        tables: SortedMap::new(),
        timeseries: SortedMap::new(),
        indexes: SortedMap::new(),
        vector_indexes: SortedMap::new(),
        search_indexes: SortedMap::new(),
    }
}

#[test]
fn a_node_reports_what_it_holds() {
    let db = db();
    let mut usage = no_usage();
    usage.tables.insert(
        s("t"),
        TableUsage { live_keys: 3, tombstones: 1, disk_bytes: 9, sstables: 2 },
    );
    usage.search_indexes.insert(s("f"), Usage { held: 8, disk_bytes: 5, uncommitted: 4 });
    for name in ["m", "r"] {
        usage.timeseries.insert(s(name), Usage { held: 2, disk_bytes: 6, uncommitted: 0 });
    }
    usage.indexes.insert(s("i"), Usage { held: 30, disk_bytes: 60, uncommitted: 0 });
    usage.vector_indexes.insert(s("e"), Usage { held: 31, disk_bytes: 61, uncommitted: 0 });
    // What is not open here is left out, and what is not defined is too.
    usage.indexes.insert(s("stray"), Usage { held: 1, disk_bytes: 1, uncommitted: 0 });
    let inv = db.inventory(&usage);
    assert_eq!(inv.tables.len(), 1);
    let t = &inv.tables[0];
    assert_eq!(t.name, "t");
    assert_eq!((t.live_keys, t.tombstones, t.disk_bytes, t.sstables), (3, 1, 9, 2));
    assert_eq!(t.ttl_ms, Some(1000));
    assert_eq!(inv.timeseries.len(), 2);
    assert_eq!((inv.timeseries[0].series, inv.timeseries[0].disk_bytes), (2, 6));
    assert_eq!(inv.timeseries[1].rollup_of, Some(s("m")));
    assert_eq!(inv.indexes.len(), 1);
    assert_eq!(inv.indexes[0].paths, strings(&["v[]"]));
    assert_eq!(inv.indexes[0].entries, 30);
    assert_eq!((inv.vector_indexes[0].dim, inv.vector_indexes[0].vectors), (3, 31));
    assert_eq!(
        (inv.search_indexes[0].docs, inv.search_indexes[0].uncommitted),
        (8, 4)
    );
}

fn engine(n: u64) -> EngineStats {
    EngineStats {
        memtable_bytes: n,
        sstable_count: 1,
        disk_bytes: 10 * n,
        wal_bytes: 0,
        wal_fsyncs: 0,
        compactions: 0,
        compaction_bytes: 0,
        cache_hits: n,
        cache_misses: 0,
        cache_evictions: 0,
        cache_entries: 0,
        bloom_negatives: 0,
    }
}

#[test]
fn engine_figures_are_summed() {
    let db = db();
    let u = SeriesUsage {
        series: 1,
        samples_appended: 2,
        samples_rejected: 3,
        disk_bytes: 4,
        blocks: 5,
        maintenance_errors: 6,
    };
    let stats = db.stats(
        &vec![engine(1), engine(2)],
        &vec![SearchStats { docs: 7, disk_bytes: 70 }],
        11,
        (12, 13),
        vec![table_stats("shop\u{1f}u", 1, 2, 3, 4)],
        vec![ts_table_stats("m", &u)],
    );
    assert_eq!((stats.memtable_bytes, stats.sstable_count, stats.disk_bytes), (3, 2, 30));
    assert_eq!((stats.tables, stats.secondary_indexes), (2, 1));
    assert_eq!((stats.vector_indexes, stats.search_indexes), (1, 1));
    assert_eq!((stats.vectors_indexed, stats.search_docs), (11, 7));
    assert_eq!((stats.vector_rebuild_ms, stats.search_rebuild_ms), (12, 13));
    assert_eq!(stats.per_table[0].database, "shop");
    assert_eq!(stats.per_table[0].name, "u");
    assert_eq!(stats.per_timeseries[0].blocks, 5);
    let l = show_status(
        &stats,
        "0.50",
        &vec![InventorySearch {
            name: s("f"),
            table: s("t"),
            paths: Vec::new(),
            docs: 7,
            disk_bytes: 70,
            uncommitted: 0,
        }],
    );
    let shown = lines(&l);
    assert!(shown.contains(&s("disk_bytes|30")));
    assert!(shown.contains(&s("cache_hit_rate|0.50")));
    assert_eq!(release_floor(true), 65_536);
    assert_eq!(release_floor(false), 4_194_304);
    let memtables = vec![(100_000, true), (70_000, false), (5_000_000, true), (10, true)];
    let heads = vec![(65_536, true), (65_535, true)];
    assert_eq!(release_memory_under_pressure(true, &memtables, &heads), 5_165_536);
    assert_eq!(release_memory_under_pressure(false, &memtables, &heads), 5_000_000);
    assert_eq!(db.tombstone_retention_ms("t", 99), 0);
    assert_eq!(db.tombstone_retention_ms("gone", 99), 99);
}

#[test]
fn definitions_are_looked_up() {
    let db = db();
    assert_eq!(db.table_names(), strings(&["shop\u{1f}u", "t"]));
    assert_eq!(db.persistent_table_names(), strings(&["shop\u{1f}u", "t"]));
    assert_eq!(db.table_is_memory("t"), Some(false));
    assert_eq!(db.table_is_memory("x"), None);
    assert_eq!(db.geo_indexes_on("t"), vec![(s("g"), s("loc"))]);
    assert_eq!(db.geo_index_for("t", "loc"), None);
    assert_eq!(db.vector_indexes_on("t"), vec![(s("e"), s("emb"))]);
    assert_eq!(db.vector_index_table("e"), Some(s("t")));
    assert_eq!(db.table_repair_version("t", Some(4)), Some((at(2), 4)));
    assert_eq!(db.table_repair_version("t", None), None);
    assert_eq!(db.managed_indexes(), strings(&["e"]));
}

#[test]
fn statements_are_routed() {
    let del = || Statement::Delete(Delete { table: s("t"), filter: None });
    let drop = || Statement::DropTable { name: s("t"), if_exists: false };
    assert!(statement_is_read_only(&Statement::ShowTables));
    assert!(!statement_is_read_only(&del()));
    assert_eq!(route_statement(&drop()).unwrap(), Handler::Schema);
    assert_eq!(route_statement(&Statement::Begin).unwrap(), Handler::Begin);
    assert_eq!(route_statement(&del()).unwrap(), Handler::Data);
    assert!(matches!(
        route_statement(&Statement::ShowDatabases),
        Err(EngineError::Unsupported(m)) if m == "database statements require a multi-database session"
    ));
    assert_eq!(route_read_statement(&Statement::ShowTables).unwrap(), ReadHandler::ShowTables);
    assert!(matches!(
        route_read_statement(&del()),
        Err(EngineError::Unsupported(m))
            if m == "statement is not read-only; use the exclusive execution path"
    ));
    assert_eq!(route_data(&del()).unwrap(), DataHandler::Delete);
    assert!(matches!(
        route_data(&drop()),
        Err(EngineError::Unsupported(m)) if m == "non-data statement reached the data-plane executor"
    ));
    assert_eq!(
        route_session(&Statement::UseDatabase { name: s("d") }),
        SessionHandler::UseDatabase
    );
    assert_eq!(route_session(&del()), SessionHandler::Engine);
    assert_eq!(
        route_session_read(&Statement::ShowTables).unwrap(),
        SessionReadHandler::ShowTablesIn
    );
    assert!(matches!(
        explain_score_query(&None, true).map(|_| ()),
        Err(EngineError::Type(m)) if m.contains("MATCH()/SEARCH() predicate")
    ));
}

fn row(k: &str, h: u64, v: Option<&str>) -> VersionedRow {
    VersionedRow { key: key(k), hlc: at(h), value: v.map(key) }
}

#[test]
fn pages_walk_a_table_to_its_end() {
    let rows = vec![row("a", 1, Some("x")), row("b", 2, None)];
    assert_eq!(page_cursor(&rows, 2), Some(key("b")));
    assert_eq!(page_cursor(&rows, 3), None);
    let read = |k: &Vec<u8>| match k.as_slice() {
        b"gone" => Ok(None),
        b"bad" => Err(EngineError::Constraint(s("corrupt row"))),
        _ => Ok(Some(key("value"))),
    };
    let stamps = vec![
        (key("a"), at(5), true),
        (key("b"), at(9), false),
        (key("gone"), at(9), true),
        (key("k"), at(10), true),
    ];
    let p = local_scan_since_page(&stamps, 9, 4, &read).unwrap();
    assert_eq!(
        p.rows,
        vec![(key("b"), Vec::new(), at(9), false), (key("k"), key("value"), at(10), true)]
    );
    assert_eq!(p.cursor, Some(key("k")));
    assert!(!p.done);
    let p = local_scan_since_page(&Vec::new(), 9, 4, &read).unwrap();
    assert!(p.done && p.cursor.is_none() && p.rows.is_empty());
    assert!(local_scan_since_page(&vec![(key("bad"), at(9), true)], 9, 4, &read).is_err());
    assert_eq!(keys_present(&vec![key("a"), key("gone")], &read).unwrap(), vec![key("a")]);
    assert!(keys_present(&vec![key("bad")], &read).is_err());
    assert_eq!(wire_row(row("a", 1, Some("x"))), (key("a"), key("x"), at(1), true));
    assert_eq!(wire_row(row("a", 1, None)), (key("a"), Vec::new(), at(1), false));
}

/// A payload that is no document is marked by a leading bang.
fn payload(b: &Vec<u8>) -> Option<Vec<u8>> {
    (b.first() != Some(&b'!')).then(|| b.clone())
}

fn point(path: &String, k: &Vec<u8>, d: &Vec<u8>) -> Option<Vec<u8>> {
    (d.as_slice() != b"nowhere").then(|| [path.as_bytes(), d.as_slice(), k.as_slice()].concat())
}

fn parts(_: &Vec<String>, k: &Vec<u8>, d: &Vec<u8>) -> Vec<Vec<u8>> {
    d.split(|b| *b == b',').map(|v| gidx_entry_key(v, k)).collect()
}

fn vector(path: &String, dim: usize, d: &Vec<u8>) -> bool {
    path == "vec" && d.len() == dim
}

#[test]
fn pages_of_unknown_indexes_are_nothing() {
    let mut db = db();
    let none = Vec::new();
    let mark = at(7);
    assert!(db.backfill_vector_page("x", true, true, &none, 4, mark, &payload, &vector).is_none());
    assert!(db.backfill_geo_page("x", true, &none, 4, &payload, &point).is_none());
    assert!(db.backfill_geo_page("g", false, &none, 4, &payload, &point).is_none());
    assert_eq!(db.geo_index_for("t", "loc"), None);
    let rows = vec![
        row("a", 1, Some("here")),
        row("b", 2, None),
        row("c", 3, Some("nowhere")),
        row("d", 4, Some("!")),
    ];
    let page = db.backfill_geo_page("g", true, &rows, 5, &payload, &point).unwrap();
    assert_eq!(page.next, None);
    assert_eq!(page.ops.len(), 1);
    assert_eq!((page.ops[0].key.clone(), page.ops[0].row.clone()), (key("locherea"), key("a")));
    assert_eq!(db.geo_index_for("t", "loc"), Some(s("g")));
    // A managed index is filled by its embedder, not from the rows' vectors.
    assert!(db.backfill_vector_page("e", true, true, &none, 4, mark, &payload, &vector).is_none());
    db.create_vector_index(
        CreateVectorIndex {
            name: s("p"),
            table: s("t"),
            path: s("vec"),
            metric: s("l2"),
            dim: Some(3),
            embed: false,
            quantized: false,
            if_not_exists: false,
        },
        VectorFacts { embedder_dim: None, metric_known: true, inferred_dim: None },
        at(20),
    )
    .unwrap();
    assert!(db.vector_index_ready("p").is_err());
    let full = vec![row("a", 1, Some("abc")), row("b", 9, None), row("c", 2, Some("ab"))];
    let page = db.backfill_vector_page("p", true, true, &full, 3, mark, &payload, &vector).unwrap();
    assert_eq!((page.places, page.mark, page.next), (vec![0], at(9), Some(key("c"))));
    // An index that is not loaded takes nothing in.
    let page = db.backfill_vector_page("p", true, false, &full, 3, mark, &payload, &vector).unwrap();
    assert_eq!((page.places, page.mark, page.next), (Vec::new(), mark, Some(key("c"))));
    assert!(db.vector_index_ready("p").is_err());
    let page = db.backfill_vector_page("p", true, true, &none, 2, mark, &payload, &vector).unwrap();
    assert_eq!((page.places, page.mark, page.next), (Vec::new(), mark, None));
    assert!(db.vector_index_ready("p").is_ok());
    assert!(db.backfill_gidx_page("x", true, &none, 4, at(30), &payload, &parts).is_none());
}

#[test]
fn a_global_index_is_filled_and_maintained() {
    let mut db = db();
    db.create_index("gi", "t", strings(&["v"]), false, true, false, at(50)).unwrap();
    let rows = vec![row("r", 1, Some("b,a,b")), row("s", 2, Some("!")), row("u", 3, None)];
    let page = db.backfill_gidx_page("gi", true, &rows, 3, at(51), &payload, &parts).unwrap();
    let keys: Vec<Vec<u8>> = page.ops.iter().map(|o| o.key.clone()).collect();
    assert_eq!(keys, vec![gidx_entry_key(b"a", b"r"), gidx_entry_key(b"b", b"r")]);
    assert!(page.ops.iter().all(|o| o.put && o.row == key("r") && o.index == "gi"));
    assert_eq!(page.next, Some(key("u")));
    assert!(db.catalog.indexes.get(&s("gi")).unwrap().building);
    let page = db.backfill_gidx_page("gi", true, &Vec::new(), 3, at(52), &payload, &parts).unwrap();
    assert!(page.ops.is_empty() && page.next.is_none());
    assert!(!db.catalog.indexes.get(&s("gi")).unwrap().building);
    let shown = |ops: Vec<IndexOp>| -> Vec<(Vec<u8>, bool)> {
        ops.into_iter().map(|o| (o.key, o.put)).collect()
    };
    let (old, new) = (key("a,b"), key("b,c"));
    assert_eq!(
        shown(db.maintain_global_put("t", &key("r"), Some(&old), &new, &parts)),
        vec![(gidx_entry_key(b"a", b"r"), false), (gidx_entry_key(b"c", b"r"), true)]
    );
    assert_eq!(shown(db.maintain_global_put("t", &key("r"), None, &new, &parts)).len(), 2);
    assert_eq!(
        shown(db.maintain_global_del("t", &key("r"), &old, &parts)),
        vec![(gidx_entry_key(b"a", b"r"), false), (gidx_entry_key(b"b", b"r"), false)]
    );
    assert!(db.maintain_global_del("other", &key("r"), &old, &parts).is_empty());
}

#[test]
fn entries_that_no_row_makes_are_repaired() {
    let good = gidx_entry_key(b"v1", b"r1");
    let bad = gidx_entry_key(b"v2", b"r2");
    let made = |row_key: &[u8], ekey: &Vec<u8>| {
        row_key == b"r1" && row_produces(&vec![b"v1".to_vec()], row_key, ekey)
    };
    let rows = vec![
        VersionedRow { key: good.clone(), hlc: at(1), value: Some(Vec::new()) },
        VersionedRow { key: bad.clone(), hlc: at(1), value: Some(Vec::new()) },
        VersionedRow { key: gidx_entry_key(b"v3", b"r3"), hlc: at(1), value: None },
    ];
    let mut db = db();
    db.create_index("gi", "t", strings(&["v"]), false, true, true, at(50)).unwrap();
    assert_eq!(db.gidx_gc_page("gi", true, &rows, 3, &made), (Some(rows[2].key.clone()), vec![bad.clone()]));
    assert_eq!(db.gidx_gc_page("gi", true, &rows, 4, &made).0, None);
    assert_eq!(db.gidx_gc_page("x", true, &rows, 3, &made), (None, Vec::new()));
    assert_eq!(db.gidx_gc_page("gi", false, &rows, 3, &made), (None, Vec::new()));
    assert_eq!(gidx_produced(&vec![good.clone(), bad.clone()], &made), vec![good.clone()]);
    // The entry of the second row is not there.
    let base = vec![row("r1", 1, Some("v1")), row("r2", 2, Some("v2")), row("r3", 3, None)];
    let entries = |k: &Vec<u8>, v: &Vec<u8>| payload(v).map(|v| vec![gidx_entry_key(&v, k)]);
    let read = |e: &Vec<u8>| Ok(if *e == good { Some(Vec::new()) } else { None });
    let healed = db.gidx_heal_page("gi", true, true, &base, 9, &entries, &read).unwrap();
    assert_eq!(healed, (None, vec![bad]));
    let broken = |_: &Vec<u8>| Err(EngineError::Constraint(s("corrupt row")));
    assert!(db.gidx_heal_page("gi", true, true, &base, 9, &entries, &broken).is_err());
    assert_eq!(
        db.gidx_heal_page("x", true, true, &base, 9, &entries, &broken).unwrap(),
        (None, Vec::new())
    );
    assert_eq!(
        db.gidx_heal_page("gi", false, true, &base, 3, &entries, &broken).unwrap(),
        (None, Vec::new())
    );
    // Without its entries at hand, the first live document ends the healing.
    assert_eq!(
        db.gidx_heal_page("gi", true, false, &base, 3, &entries, &broken).unwrap(),
        (None, Vec::new())
    );
    let dead = vec![row("r1", 1, None), row("r2", 2, Some("!"))];
    assert_eq!(
        db.gidx_heal_page("gi", true, false, &dead, 2, &entries, &broken).unwrap(),
        (Some(key("r2")), Vec::new())
    );
}

#[test]
fn replays_follow_what_is_there() {
    let mut c = CatchUp::new(Some(at(5)));
    assert!(!c.take_in(at(5)));
    assert!(c.take_in(at(7)));
    assert!(c.take_in(at(6)));
    assert_eq!(c.max_seen, at(7));
    assert_eq!(vector_replay(true, true, true), ReplayAction::Put);
    assert_eq!(vector_replay(false, false, false), ReplayAction::Remove);
    assert_eq!(search_replay(true, true), ReplayAction::Put);
    assert_eq!(search_replay(false, false), ReplayAction::Remove);
    assert_eq!(search_replay(true, false), ReplayAction::Skip);
    assert_eq!(search_startup(true, false, Some(at(1))), SearchStartup::CatchUp(at(1)));
    assert_eq!(search_startup(true, false, None), SearchStartup::Rebuild);
    assert_eq!(search_startup(false, true, None), SearchStartup::AsIs);
    assert!(matches!(
        replicated_row_error(None),
        EngineError::Constraint(m) if m == "replicated row is not a document"
    ));
    assert!(matches!(
        replicated_row_error(Some("bad tag")),
        EngineError::Constraint(m) if m == "corrupt replicated row: bad tag"
    ));
}

#[test]
fn rows_wait_for_their_embedding() {
    let mut q = EmbedQueue::new();
    q.enqueue("e", key("b"));
    q.enqueue("e", key("a"));
    q.enqueue("e", key("b"));
    assert_eq!(q.peek("e", 9), vec![key("a"), key("b")]);
    assert_eq!(q.peek("e", 1).len(), 1);
    assert_eq!(q.pending_embed_indexes(), strings(&["e"]));
    q.drop_key("e", &key("a"));
    assert!(q.has_pending_embeds());
    q.drop_all("e", &vec![key("b")]);
    assert!(!q.has_pending_embeds());
    q.enqueue_all("e", &vec![key("x"), key("y")]);
    let text = |_: &str, k: &Vec<u8>| if *k == key("x") { Some(s("text")) } else { None };
    // The rows of an index that is gone go on waiting.
    assert_eq!(q.peek_embed_batch("e", false, 9, &text), (Vec::new(), Vec::new()));
    assert_eq!(q.peek("e", 9).len(), 2);
    assert_eq!(q.peek_embed_batch("e", true, 9, &text), (vec![key("x")], strings(&["text"])));
    // The row whose text is gone does not wait any more.
    assert_eq!(q.peek("e", 9), vec![key("x")]);
    let has_text = |v: &Vec<u8>| *v != key("none");
    let embedded = |k: &Vec<u8>| *k == key("in");
    let page = vec![
        row("in", 1, Some("text")),
        row("new", 1, Some("text")),
        row("no", 1, Some("none")),
        row("z", 1, None),
    ];
    q.enqueue_unembedded("e", false, &page, &has_text, &embedded);
    assert_eq!(q.peek("e", 9), vec![key("x")]);
    q.enqueue_unembedded("e", true, &page, &has_text, &embedded);
    assert_eq!(q.peek("e", 9), vec![key("new"), key("x")]);
    assert_eq!(vector_write(true, true, false), VectorWrite::Enqueue);
    assert_eq!(vector_write(true, false, false), VectorWrite::Forget);
    assert_eq!(vector_write(false, false, true), VectorWrite::Insert);
    assert_eq!(vector_write(false, false, false), VectorWrite::Remove);
    let mut w = VectorWatermarks::new();
    assert_eq!(w.get("e"), Hlc::min());
    w.advance("e", at(5));
    w.advance("e", at(3));
    assert_eq!(w.get("e"), at(5));
    w.reset("e");
    assert_eq!(w.get("e"), Hlc::min());
}

#[test]
fn times_fall_into_buckets() {
    assert_eq!(bucket_start(125, 60), 120);
    assert_eq!(bucket_start(-1, 60), -60);
    assert_eq!(bucket_start(0, 60), 0);
    assert_eq!(touched_buckets(&vec![130, 10, 125, -1], 60), vec![-60, 0, 120]);
    let parts = rollup_parts(&vec![10, 20, 70, 30], 60);
    assert_eq!(parts.len(), 2);
    assert_eq!((parts[0].bucket, parts[0].count), (0, 3));
    assert_eq!((parts[0].first, parts[0].last), (0, 3));
    assert_eq!((parts[1].bucket, parts[1].count), (60, 1));
    let labels = vec![(s("__field__"), s("cpu")), (s("host"), s("a"))];
    let l = rollup_labels(&labels, RollupPart::Max);
    assert!(l.iter().any(|(k, v)| k == "__field__" && v.contains("cpu") && v.contains("max")));
    assert!(l.iter().any(|(k, v)| k == "host" && v == "a"));
}

#[test]
fn the_rollup_horizon_is_told() {
    let db = db();
    let store = |head: Option<i64>| StoreRange {
        max_ts: 20_000,
        flushed_through: 18_000,
        head_min_ts: head,
        max_ts_all: 20_000,
    };
    let info = db.ts_rollup_info("m", Some(store(None))).unwrap();
    assert_eq!(info.horizon, Some(15_000));
    assert_eq!(info.complete_below, Some(20_001));
    assert_eq!(info.rollups.len(), 1);
    let info = db.ts_rollup_info("m", Some(store(Some(19_000)))).unwrap();
    assert_eq!(info.complete_below, Some(19_000));
    let info = db.ts_rollup_info("r", None).unwrap();
    assert!(info.horizon.is_none() && info.complete_below.is_none());
    assert!(matches!(db.ts_rollup_info("m", None), Err(EngineError::TableNotFound(_))));
    assert!(matches!(db.ts_rollup_info("x", None), Err(EngineError::TableNotFound(_))));
}

#[test]
fn queued_rows_are_embedded_or_stay_queued() {
    let mut q = EmbedQueue::new();
    for i in 0..40u8 {
        q.enqueue("e", vec![i]);
    }
    q.enqueue("f", key("lost"));
    let text = |name: &str, k: &Vec<u8>| match name {
        "e" => Some(format!("text {}", k[0])),
        _ => None,
    };
    let here = |name: &str| name != "gone";
    q.enqueue("gone", key("row"));
    let down = |_: &Vec<String>| Err(EngineError::Unsupported(s("down")));
    assert!(q.run_embed_drain(2, &here, &text, &down).is_empty());
    assert_eq!(q.pending_embed_indexes(), strings(&["e", "gone"]));
    assert_eq!(q.peek("e", 99).len(), 40);
    // Vectors of the wrong dimension are not taken.
    let short = |ts: &Vec<String>| Ok(ts.iter().map(|_| vec![1u32]).collect());
    assert!(q.run_embed_drain(2, &here, &text, &short).is_empty());
    assert_eq!(q.peek("e", 99).len(), 40);
    let embed = |ts: &Vec<String>| Ok(ts.iter().map(|t| vec![t.len() as u32, 7]).collect());
    let batches = q.run_embed_drain(2, &here, &text, &embed);
    assert_eq!(batches.iter().map(|b| b.keys.len()).collect::<Vec<_>>(), vec![32, 8]);
    assert_eq!(batches[0].name, "e");
    assert_eq!(batches[0].keys[10], vec![10]);
    assert_eq!(batches[0].vectors[9], vec![6, 7]);
    assert_eq!(batches[0].vectors[10], vec![7, 7]);
    assert_eq!(q.pending_embed_indexes(), strings(&["gone"]));
}

#[test]
fn a_drain_goes_by_name_and_stops_at_a_batch_without_texts() {
    let mut q = EmbedQueue::new();
    q.enqueue("z", vec![1]);
    for i in 0..40u8 {
        q.enqueue("a", vec![i]);
        q.enqueue("m", vec![i]);
    }
    // The lowest batch of "a" has no text left; of "m" every second row has one.
    let text = |name: &str, k: &Vec<u8>| match name {
        "a" => (k[0] >= 32).then(|| s("late")),
        "m" => (k[0] % 2 == 1).then(|| s("odd")),
        _ => Some(s("z")),
    };
    let here = |_: &str| true;
    let embed = |ts: &Vec<String>| Ok(ts.iter().map(|_| vec![1u32]).collect());
    assert_eq!(q.pending_embed_indexes(), strings(&["a", "m", "z"]));
    let batches = q.run_embed_drain(1, &here, &text, &embed);
    let got: Vec<(&str, usize)> =
        batches.iter().map(|b| (b.name.as_str(), b.keys.len())).collect();
    assert_eq!(got, vec![("m", 16), ("m", 4), ("z", 1)]);
    assert_eq!(batches[1].keys, vec![vec![33], vec![35], vec![37], vec![39]]);
    assert_eq!(q.pending_embed_indexes(), strings(&["a"]));
    assert_eq!(q.peek("a", 99), (32..40u8).map(|i| vec![i]).collect::<Vec<_>>());
    // The rows behind come with the next drain.
    let batches = q.run_embed_drain(1, &here, &text, &embed);
    assert_eq!(batches[0].keys.len(), 8);
    assert!(!q.has_pending_embeds());
}

#[test]
fn a_catch_up_replays_the_rows_behind_its_watermark() {
    let rows = vec![
        row("a", 9, Some("vector")),
        row("b", 3, Some("vector")),
        row("c", 7, None),
        row("d", 6, Some("plain")),
        row("e", 8, Some("junk")),
    ];
    let payload = |b: &Vec<u8>| (b.as_slice() != b"junk", b.as_slice() == b"vector");
    let (steps, mark) = catch_up(&payload, true, Some(at(5)), &rows);
    assert_eq!(
        steps,
        vec![
            (0, ReplayAction::Put),
            (2, ReplayAction::Remove),
            (3, ReplayAction::Remove),
            (4, ReplayAction::Skip),
        ]
    );
    assert_eq!(mark, at(9));
    // A search index takes every document; from scratch every row counts.
    let (steps, mark) = catch_up(&payload, false, None, &rows);
    assert_eq!(steps.len(), 5);
    assert_eq!(steps[3], (3, ReplayAction::Put));
    assert_eq!(mark, at(9));
    // The next one has nothing to do.
    assert!(catch_up(&payload, false, Some(mark), &rows).0.is_empty());
}

#[test]
fn an_opened_database_knows_its_stores_and_marks() {
    let catalog = {
        let mut d = db();
        d.create_index("plain", "t", strings(&["v"]), false, false, true, at(40)).unwrap();
        d.create_index("gi", "t", strings(&["v"]), false, true, true, at(50)).unwrap();
        d.catalog
    };
    let known = |p: &str| p == "SELECT";
    let written = b"[[\"t\",70,2]]".to_vec();
    let committed = |n: &String| (n == "f").then(|| at(33));
    let is_document = |_: &Vec<u8>| true;
    let mut writes = TxnWrites::new();
    writes.insert(RowId { table: s("t"), key: key("k") }, Some(key("doc")));
    let journal = encode_txn_journal(&writes);
    let opened = Database::open_with_options(
        catalog,
        Some(written),
        Some(journal),
        false,
        &known,
        &committed,
        is_document,
    );
    let txn = opened.txn.unwrap();
    assert_eq!((txn.len(), txn.key_at(0).key.clone()), (1, key("k")));
    assert_eq!(opened.searches, vec![(s("f"), SearchStartup::CatchUp(at(33)))]);
    assert!(opened.db.pending_search_catchups.is_empty());
    assert_eq!(opened.clock, at(50));
    assert_eq!(opened.indexes, strings(&["i", "plain"]));
    assert_eq!(opened.marks.get("t"), Some(Hlc::new(70, 2)));
    let t = opened.tables.iter().find(|t| t.name == "t").unwrap();
    assert!(!t.memory && t.ttl_ms == Some(1000));
    // Marks that cannot be read are none.
    let mut opened = Database::open_with_options(
        opened.db.catalog,
        Some(b"{".to_vec()),
        Some(b"torn".to_vec()),
        true,
        &known,
        &committed,
        is_document,
    );
    assert_eq!(opened.marks.get("t"), None);
    assert!(opened.txn.is_none());
    // Left to the background, the catch-up is handed out once.
    assert_eq!(opened.db.take_pending_search_catchups(), vec![(s("f"), Some(at(33)))]);
    assert!(opened.db.take_pending_search_catchups().is_empty());
}

fn document(v: i64) -> Document {
    let mut d = Document::new();
    d.put_field(s("v"), Value::Int(v));
    d
}

#[test]
fn a_node_answers_from_its_own_rows() {
    let rows: Vec<(Vec<u8>, Vec<u8>)> = vec![
        (key("a"), vec![3]),
        (key("b"), vec![1]),
        (key("c"), vec![3]),
        (key("d"), vec![2]),
        (key("e"), vec![0xFF]),
    ];
    let read = |b: &Vec<u8>| match b[0] {
        0xFF => Ok(None),
        0xEE => Err(EngineError::Constraint(s("corrupt row"))),
        n => Ok(Some(document(n as i64))),
    };
    let at_least = |e: &Expr, d: &Document| match (e, d.field("v")) {
        (Expr::Literal(Value::Int(n)), Some(Value::Int(v))) => Ok(v >= n),
        _ => Err(EngineError::Type(s("bad filter"))),
    };
    let two = Some(Expr::Literal(Value::Int(2)));
    let keys = local_scan_filtered_keys(&read, &at_least, &two, &rows).unwrap();
    assert_eq!(keys, vec![key("a"), key("c"), key("d")]);
    assert_eq!(local_count_matching(&read, &at_least, &two, &rows).unwrap(), 3);
    assert_eq!(local_count_matching(&read, &at_least, &None, &rows).unwrap(), 4);
    let v = |d: &Document| match d.field("v") {
        Some(Value::Int(n)) => Value::Int(*n),
        _ => Value::Null,
    };
    let encode = |vs: &Vec<&Value>| match vs[0] {
        Value::Int(n) => vec![*n as u8],
        _ => Vec::new(),
    };
    let found = local_distinct_values(&read, &at_least, &v, &encode, &None, &rows).unwrap();
    assert!(matches!(found.as_slice(), [Value::Int(1), Value::Int(2), Value::Int(3)]));
    // Bytes that cannot be read fail a scan of keys; a count passes them over.
    let torn = vec![(key("a"), vec![0xEE]), (key("b"), vec![5])];
    assert!(local_scan_filtered_keys(&read, &at_least, &two, &torn).is_err());
    assert_eq!(local_count_matching(&read, &at_least, &two, &torn).unwrap(), 1);
    let bad = Some(Expr::Column(s("v")));
    assert!(local_count_matching(&read, &at_least, &bad, &torn).is_err());
}

#[test]
fn stored_rows_are_gathered_along_the_walk() {
    let stored = || -> Vec<(Vec<u8>, Vec<u8>)> {
        [("a", 5), ("b", 2), ("c", 5), ("d", 9), ("e", 2)]
            .iter()
            .map(|(k, v)| (key(k), vec![*v]))
            .collect()
    };
    let read = |b: &Vec<u8>| match b[0] {
        0xEE => Err(EngineError::Constraint(s("corrupt row"))),
        n => Ok(document(n as i64)),
    };
    let number = |d: &Document| match d.field("v") {
        Some(Value::Int(n)) => *n,
        _ => 0,
    };
    let at_least = |e: &Expr, d: &Document| match e {
        Expr::Literal(Value::Int(n)) => Ok(number(d) >= *n),
        _ => Err(EngineError::Type(s("bad filter"))),
    };
    let ties = |a: &Document, b: &Document| number(a) == number(b);
    let lead = |d: &Document| Value::Int(number(d));
    let rank = |a: &Value, b: &Value| match (a, b) {
        (Value::Int(x), Value::Int(y)) if x < y => Rank::Less,
        (Value::Int(x), Value::Int(y)) if x > y => Rank::Greater,
        _ => Rank::Equal,
    };
    let col = s("v");
    let gather = |filter: Option<i64>, kind, order: Option<(bool, bool)>, limit, rows| {
        let order = order
            .map(|(descending, exact)| OrderRequest { col: &col, descending, exact });
        let filter = filter.map(|n| Expr::Literal(Value::Int(n)));
        gather_rows_planned(
            &read, &at_least, &ties, &lead, &rank, &filter, kind, order.as_ref(), limit, rows,
        )
        .map(|(rows, sorted)| {
            let keys: Vec<String> =
                rows.into_iter().map(|(k, _)| String::from_utf8(k).unwrap()).collect();
            (keys.join(""), sorted)
        })
    };
    // Without an order the walk stops at the limit.
    assert_eq!(gather(Some(3), WalkKind::Table, None, None, stored()).unwrap().0, "acd");
    assert_eq!(gather(Some(3), WalkKind::Table, None, Some(2), stored()).unwrap().0, "ac");
    // An order of the whole table with a limit keeps the best, ties by key.
    let top = gather(None, WalkKind::Table, Some((false, true)), Some(3), stored()).unwrap();
    assert_eq!(top, (s("bea"), true));
    let top = gather(None, WalkKind::Table, Some((true, true)), Some(2), stored()).unwrap();
    assert_eq!(top, (s("da"), true));
    // An index walk in order keeps the rows that tie with the last one, where
    // other columns have yet to tell them apart.
    let walked = || -> Vec<(Vec<u8>, Vec<u8>)> {
        [("b", 2), ("e", 2), ("a", 5), ("c", 5), ("d", 9)]
            .iter()
            .map(|(k, v)| (key(k), vec![*v]))
            .collect()
    };
    let kind = WalkKind::Index(true);
    assert_eq!(gather(None, kind, Some((false, true)), Some(3), walked()).unwrap(), (s("bea"), true));
    assert_eq!(gather(None, kind, Some((false, false)), Some(3), walked()).unwrap().0, "beac");
    // Without a limit every way gives the same rows, each once.
    let ways = [
        (WalkKind::Table, None, stored()),
        (WalkKind::Table, Some((true, true)), stored()),
        (WalkKind::KeyRange, Some((false, true)), stored()),
        (WalkKind::KeyOrder, Some((false, true)), stored()),
        (WalkKind::Points, None, stored()),
        (WalkKind::Index(true), Some((false, false)), walked()),
        (WalkKind::Index(false), None, walked()),
        // The entries between the bounds that the filter gives the index.
        (WalkKind::Index(true), Some((false, true)), walked().split_off(2)),
    ];
    for (kind, order, rows) in ways {
        let mut keys: Vec<char> =
            gather(Some(3), kind, order, None, rows).unwrap().0.chars().collect();
        keys.sort();
        assert_eq!(keys, vec!['a', 'c', 'd']);
    }
    // Row by row a gather comes to the same.
    let streamed = |kind, order: Option<(bool, bool)>, limit, rows: Vec<(Vec<u8>, Vec<u8>)>| {
        let order = order
            .map(|(descending, exact)| OrderRequest { col: &col, descending, exact });
        let mut gathering = Gathering::new(kind, order.as_ref(), limit);
        for (k, b) in rows {
            let (next, stop) = gathering
                .feed(&read, &at_least, &ties, &lead, &rank, &None, k, b)
                .unwrap();
            gathering = next;
            if stop {
                break;
            }
        }
        let (rows, sorted) = gathering.finish();
        let keys: String = rows.into_iter().map(|(k, _)| k[0] as char).collect();
        (keys, sorted)
    };
    assert_eq!(streamed(WalkKind::Table, Some((false, true)), Some(3), stored()), (s("bea"), true));
    assert_eq!(streamed(WalkKind::Table, None, Some(2), stored()), (s("ab"), false));
    assert_eq!(streamed(kind, Some((false, false)), Some(3), walked()), (s("beac"), false));
    // A slice of the table passes over bytes that cannot be read.
    let torn = || vec![(key("x"), vec![0xEE]), (key("y"), vec![1])];
    assert!(gather(None, WalkKind::Table, None, None, torn()).is_err());
    assert_eq!(gather(None, WalkKind::KeyRange, None, None, torn()).unwrap().0, "y");
}

#[test]
fn a_session_executes_its_statements() {
    let facts = || SchemaFacts {
        vector: VectorFacts { embedder_dim: None, metric_known: true, inferred_dim: None },
        search: Ok(()),
        credential: None,
        verifier_ok: true,
        role: None,
        privilege_known: true,
    };
    let mut db = db();
    let mut run = |stmt, h| {
        db.execute_session_statement(stmt, facts(), true, at(h), vec![at(h + 1)], false)
    };
    let create = || Statement::CreateDatabase { name: s("d"), if_not_exists: false };
    assert!(matches!(
        run(Statement::UseDatabase { name: s("d") }, 100),
        Err(EngineError::DatabaseNotFound(_))
    ));
    assert!(matches!(run(create(), 101), Ok(SessionEffect::Created(DdlOutcome::Applied))));
    assert!(run(create(), 102).is_err());
    assert!(matches!(
        run(Statement::UseDatabase { name: s("d") }, 103),
        Ok(SessionEffect::UseDatabase(n)) if n == "d"
    ));
    assert!(matches!(
        run(Statement::ShowTables, 104),
        Ok(SessionEffect::Show(SessionHandler::ShowTablesIn))
    ));
    assert!(matches!(
        run(Statement::Begin, 105),
        Ok(SessionEffect::Engine(Executed::Handed(Handler::Begin), _))
    ));
    let index = Statement::CreateIndex(CreateIndex {
        name: s("by_v"),
        table: s("t"),
        paths: strings(&["v"]),
        if_not_exists: false,
        global: false,
        ready: false,
    });
    // A statement on a single node returns with what it has to build.
    match run(index, 106) {
        Ok(SessionEffect::Engine(Executed::Schema(done), due)) => {
            assert_eq!(done.outcome, DdlOutcome::Applied);
            assert!(due.indexes.contains(&s("by_v")));
        }
        _ => panic!("the index is created"),
    }
    let drop = Statement::DropDatabase { name: s("d"), if_exists: false };
    assert!(matches!(
        run(drop, 107),
        Ok(SessionEffect::Dropped(d)) if d.outcome == DdlOutcome::Applied
    ));
    assert_eq!(
        db.indexes_on("t").into_iter().map(|i| i.0).filter(|n| n == "by_v").count(),
        1
    );
    db.create_index("gi", "t", strings(&["v"]), false, true, true, at(120)).unwrap();
    assert_eq!(db.global_indexes_of("t"), vec![(s("gi"), strings(&["v"]))]);
}
