use skaidb_engine::alter::{AlterAction, AlterKind};
use skaidb_engine::auth::{
    contains_name, decode_role_state, encode_role_state, grant_object_key, grant_object_of,
    show_grants, GrantObject, RoleOp,
};
use skaidb_engine::catalog::{AuthRoleDef, Catalog, UserAuthKind};
use skaidb_engine::database::{Database, DdlOutcome};
use skaidb_engine::ddl_database::DropStamps;
use skaidb_engine::ddl_search::{CreateSearchIndex, SearchWork};
use skaidb_engine::ddl_table::CreateTable;
use skaidb_engine::ddl_vector::{CreateVectorIndex, VectorFacts};
use skaidb_engine::error::EngineError;
use skaidb_engine::hlc::Hlc;
use skaidb_engine::lookup::Placement;
use skaidb_engine::recovery::seed_stamp;
use skaidb_engine::show::Cell;

fn at(n: u64) -> Hlc {
    Hlc::new(n, 0)
}

fn s(x: &str) -> String {
    x.to_string()
}

fn strings(xs: &[&str]) -> Vec<String> {
    xs.iter().map(|x| x.to_string()).collect()
}

fn empty() -> Database {
    Database::new(Catalog::new())
}

fn table(name: &str) -> CreateTable {
    CreateTable {
        name: s(name),
        if_not_exists: false,
        primary_key: strings(&["id"]),
        ttl_ms: None,
        memory: false,
        replication: None,
        nodes: Vec::new(),
        witness: false,
    }
}

fn with_table(name: &str) -> Database {
    let mut db = empty();
    db.create_table(table(name), at(10)).unwrap();
    db
}

fn options(list: &[(&str, &str)]) -> Vec<(String, String)> {
    list.iter().map(|(k, v)| (s(k), s(v))).collect()
}

fn constraint<T>(r: Result<T, EngineError>) -> String {
    match r {
        Err(EngineError::Constraint(m)) => m,
        Err(e) => panic!("another error: {e:?}"),
        Ok(_) => panic!("no error"),
    }
}

fn unsupported<T>(r: Result<T, EngineError>) -> String {
    match r {
        Err(EngineError::Unsupported(m)) => m,
        Err(e) => panic!("another error: {e:?}"),
        Ok(_) => panic!("no error"),
    }
}

fn stamps(own: u64, drops: u64) -> DropStamps {
    DropStamps { own: at(own), fresh: (1..=drops).map(|k| at(own + k)).collect() }
}

#[test]
fn create_table_checks_its_statement() {
    let mut db = empty();
    let mut no_key = table("t");
    no_key.primary_key.clear();
    assert_eq!(
        constraint(db.create_table(no_key, at(1))),
        "primary key must have at least one column"
    );
    assert_eq!(
        constraint(db.create_table(table("metrics"), at(1))),
        "'metrics' is a system table: placement/witness options are not allowed"
    );
    assert_eq!(db.create_table(table("t"), at(1)).unwrap(), DdlOutcome::Applied);
    assert!(matches!(db.create_table(table("t"), at(2)), Err(EngineError::TableExists(n)) if n == "t"));
    let mut again = table("t");
    again.if_not_exists = true;
    assert!(db.create_table(again, at(3)).is_ok());
    assert_eq!(db.table_primary_key("t").unwrap(), strings(&["id"]));
    assert!(matches!(db.table_primary_key("u"), Err(EngineError::TableNotFound(_))));
}

#[test]
fn schema_statements_of_older_stamps_are_ignored() {
    let mut db = with_table("t");
    assert_eq!(db.create_table(table("t"), at(5)).unwrap(), DdlOutcome::Stale);
    assert_eq!(db.drop_table("t", false, at(9)).unwrap().outcome, DdlOutcome::Stale);
    assert!(db.has_table("t"));
    // The same statement at the same stamp: nothing left to do.
    assert_eq!(db.drop_table("t", false, at(10)).unwrap().outcome, DdlOutcome::Stale);
    assert_eq!(seed_stamp(&db.catalog.schema_versions), at(10));
}

#[test]
fn creates_and_drops_converge_in_either_order() {
    let mut a = empty();
    a.create_table(table("t"), at(10)).unwrap();
    a.drop_table("t", true, at(20)).unwrap();
    let mut b = empty();
    b.drop_table("t", true, at(20)).unwrap();
    b.create_table(table("t"), at(10)).unwrap();
    assert!(!a.has_table("t") && !b.has_table("t"));
    let v = |db: &Database| *db.catalog.schema_versions.get(&s("t:t")).unwrap();
    assert_eq!(v(&a), v(&b));
    assert!(v(&a).dropped);
    assert_eq!(v(&a).hlc, at(20));
}

#[test]
fn dropping_a_table_takes_its_indexes_along() {
    let mut db = with_table("t");
    db.create_table(table("u"), at(11)).unwrap();
    db.create_index("i", "t", strings(&["v"]), false, true, true, at(12)).unwrap();
    db.create_index("j", "u", strings(&["v"]), false, false, true, at(12)).unwrap();
    db.create_geo_index("g", "t", "loc", false, at(13)).unwrap();
    assert!(db.has_table("__gidx__i"));
    let report = db.drop_table("t", false, at(20)).unwrap();
    assert_eq!(report.outcome, DdlOutcome::Applied);
    assert_eq!(report.indexes.len(), 1);
    assert_eq!(report.geo_indexes.len(), 1);
    assert!(!db.has_table("t") && !db.has_table("__gidx__i") && db.has_table("u"));
    assert!(db.index_owner_table("i", "default").is_none());
    assert_eq!(db.index_owner_table("j", "default"), Some(s("u")));
    assert!(db.catalog.schema_versions.get(&s("i:i")).unwrap().dropped);
    assert!(matches!(db.drop_table("t", false, at(21)), Err(EngineError::TableNotFound(_))));
    assert_eq!(db.drop_table("t", true, at(21)).unwrap().outcome, DdlOutcome::Recorded);
}

#[test]
fn timeseries_tables_and_rollups_check_their_statements() {
    let mut db = empty();
    assert_eq!(
        constraint(db.create_timeseries_table("m", Vec::new(), None, 0, false, at(1))),
        "SERIES KEY must have at least one column"
    );
    for bad in ["ts", "__rollup"] {
        assert_eq!(
            constraint(db.create_timeseries_table("m", strings(&[bad]), None, 0, false, at(1))),
            "series key columns may not be named `ts` or start with `__`"
        );
    }
    db.create_timeseries_table("m", strings(&["host"]), Some(1000), 5, false, at(2)).unwrap();
    assert_eq!(
        unsupported(db.create_rollup("r", "t", 60_000, None, false, at(3))),
        "ROLLUP source t must be a timeseries table"
    );
    for bad in [0, -60_000, 7_000] {
        assert_eq!(
            constraint(db.create_rollup("r", "m", bad, None, false, at(3))),
            "BUCKET must be positive and evenly divide 2h"
        );
    }
    db.create_rollup("r", "m", 60_000, None, false, at(4)).unwrap();
    assert_eq!(
        unsupported(db.create_rollup("rr", "r", 60_000, None, false, at(5))),
        "cannot create a rollup of a rollup"
    );
    assert_eq!(db.ts_table_names(), strings(&["m", "r"]));
    assert_eq!(db.ts_series_key("r"), Some(strings(&["host"])));
    // A rollup goes with its source.
    let report = db.drop_table("m", false, at(6)).unwrap();
    assert_eq!(report.timeseries, strings(&["m", "r"]));
    assert!(!db.has_timeseries_tables());
}

#[test]
fn a_table_is_regular_or_timeseries() {
    let mut db = with_table("t");
    assert!(matches!(
        db.create_timeseries_table("t", strings(&["host"]), None, 0, false, at(20)),
        Err(EngineError::TableExists(_))
    ));
    db.create_timeseries_table("m", strings(&["host"]), None, 0, false, at(21)).unwrap();
    assert!(matches!(db.create_table(table("m"), at(22)), Err(EngineError::TableExists(_))));
}

#[test]
fn create_index_checks_its_statement() {
    let mut db = with_table("t");
    assert!(matches!(
        db.create_index("i", "u", strings(&["v"]), false, false, false, at(11)),
        Err(EngineError::TableNotFound(n)) if n == "u"
    ));
    assert_eq!(
        unsupported(db.create_index("i", "t", strings(&["a[]", "b[]"]), false, false, false, at(11))),
        "at most one multikey ([]) component per index"
    );
    let mut mem = table("m");
    mem.memory = true;
    db.create_table(mem, at(11)).unwrap();
    assert_eq!(
        unsupported(db.create_index("i", "m", strings(&["v"]), false, false, false, at(12))),
        "indexes on memory tables are not supported"
    );
    assert_eq!(
        unsupported(db.create_geo_index("g", "m", "loc", false, at(12))),
        "geo indexes on memory tables are not supported"
    );
    assert_eq!(
        db.create_index("i", "t", strings(&["v"]), false, false, false, at(12)).unwrap(),
        DdlOutcome::Applied
    );
    assert_eq!(db.take_pending_backfills(), strings(&["i"]));
    assert!(db.take_pending_backfills().is_empty());
    assert!(matches!(
        db.create_index("i", "t", strings(&["v"]), false, false, false, at(13)),
        Err(EngineError::IndexExists(_))
    ));
    db.finish_index_backfill("i");
    assert!(!db.catalog.indexes.get(&s("i")).unwrap().building);
    assert!(matches!(db.drop_index("x", false, at(14)), Err(EngineError::IndexNotFound(_))));
    assert_eq!(db.drop_index("i", false, at(14)).unwrap(), DdlOutcome::Applied);
}

#[test]
fn a_global_index_lives_in_an_entry_table() {
    let mut db = with_table("t");
    db.create_index("i", "t", strings(&["v"]), false, true, false, at(11)).unwrap();
    assert_eq!(db.gidx_def("i"), Some((s("t"), strings(&["v"]))));
    assert_eq!(db.table_primary_key("__gidx__i").unwrap(), strings(&["k"]));
    assert_eq!(db.all_global_indexes(), vec![(s("i"), true)]);
    assert!(db.finish_global_backfill("i", at(12)));
    assert!(!db.finish_global_backfill("i", at(13)));
    assert_eq!(db.all_global_indexes(), vec![(s("i"), false)]);
    db.drop_index("i", false, at(14)).unwrap();
    assert!(!db.has_table("__gidx__i"));
}

fn vector(name: &str) -> CreateVectorIndex {
    CreateVectorIndex {
        name: s(name),
        table: s("t"),
        path: s("emb"),
        metric: s("cosine"),
        dim: Some(3),
        embed: false,
        quantized: false,
        if_not_exists: false,
    }
}

fn known(inferred: Option<usize>) -> VectorFacts {
    VectorFacts { embedder_dim: None, metric_known: true, inferred_dim: inferred }
}

#[test]
fn create_vector_index_checks_its_statement() {
    let mut db = with_table("t");
    let mut c = vector("v");
    c.quantized = true;
    c.embed = true;
    assert!(unsupported(db.create_vector_index(c, known(None), at(11)))
        .starts_with("QUANTIZED requires the vector stored in the row"));
    let mut c = vector("v");
    c.embed = true;
    c.dim = None;
    assert_eq!(
        constraint(db.create_vector_index(c, known(None), at(11))),
        "CREATE VECTOR INDEX … EMBED requires DIM <n>"
    );
    let mut c = vector("v");
    c.embed = true;
    assert_eq!(
        unsupported(db.create_vector_index(c, known(None), at(11))),
        "CREATE VECTOR INDEX … EMBED needs a configured [inference] provider"
    );
    let mut c = vector("v");
    c.embed = true;
    let facts = VectorFacts { embedder_dim: Some(4), metric_known: true, inferred_dim: None };
    assert_eq!(
        constraint(db.create_vector_index(c, facts, at(11))),
        "index DIM 3 does not match the inference model's dimension 4 (inference.dim)"
    );
    let facts = VectorFacts { embedder_dim: None, metric_known: false, inferred_dim: None };
    assert_eq!(
        constraint(db.create_vector_index(vector("v"), facts, at(11))),
        "unknown vector metric 'cosine'"
    );
    let mut c = vector("v");
    c.dim = None;
    assert_eq!(
        constraint(db.create_vector_index(c, known(None), at(11))),
        "cannot infer vector dimension: no row of 't' has a numeric array at 'emb'"
    );
    let mut c = vector("v");
    c.dim = None;
    assert_eq!(
        db.create_vector_index(c, known(Some(5)), at(11)).unwrap(),
        DdlOutcome::Applied
    );
    // The scan that found the dimension filled the index.
    assert!(db.take_pending_vector_backfills().is_empty());
    assert_eq!(db.vector_index_for("t", "emb"), Some(s("v")));
    assert_eq!(
        constraint(db.create_vector_index(vector("w"), known(None), at(12))),
        "vector index 'v' already covers t (emb) — drop it first"
    );
}

#[test]
fn a_vector_index_is_tuned() {
    let mut db = with_table("t");
    db.create_vector_index(vector("v"), known(None), at(11)).unwrap();
    assert_eq!(db.take_pending_vector_backfills(), strings(&["v"]));
    let err = |r: Result<DdlOutcome, EngineError>| r.unwrap_err().message().clone();
    assert_eq!(
        err(db.alter_vector_index("v", &options(&[("ef", "x")]), at(12))),
        "ef must be a positive integer, got 'x'"
    );
    assert_eq!(
        err(db.alter_vector_index("v", &options(&[("ef", "0")]), at(12))),
        "ef must be between 1 and 65536"
    );
    assert_eq!(
        err(db.alter_vector_index("v", &options(&[("ef", "65537")]), at(12))),
        "ef must be between 1 and 65536"
    );
    assert!(err(db.alter_vector_index("v", &options(&[("m", "8")]), at(12)))
        .starts_with("'m' shapes the graph at build time"));
    assert_eq!(
        err(db.alter_vector_index("v", &options(&[("q", "8")]), at(12))),
        "unknown vector index option 'q' (try ef)"
    );
    db.alter_vector_index("v", &options(&[("ef", "128")]), at(12)).unwrap();
    assert_eq!(db.catalog.vector_indexes.get(&s("v")).unwrap().ef_search, Some(128));
}

fn search(name: &str) -> CreateSearchIndex {
    CreateSearchIndex {
        name: s(name),
        table: s("t"),
        paths: strings(&["body"]),
        options: options(&[("body.analyzer", "en")]),
        if_not_exists: false,
    }
}

#[test]
fn a_search_index_is_created_altered_and_healed() {
    let mut db = with_table("t");
    assert_eq!(db.plan_search_index(&search("f"), at(11)).unwrap(), SearchWork::Build);
    // What the text engine refuses leaves no index behind.
    let refused = db.create_search_index(
        search("f"),
        Err(EngineError::Constraint(s("unknown analyzer"))),
        at(11),
    );
    assert_eq!(constraint(refused), "unknown analyzer");
    assert!(db.search_indexes_on("t").is_empty());
    db.create_search_index(search("f"), Ok(()), at(11)).unwrap();
    assert_eq!(db.search_indexes_on("t"), strings(&["f"]));
    assert!(matches!(db.plan_search_index(&search("f"), at(12)), Err(EngineError::IndexExists(_))));
    let mut again = search("f");
    again.if_not_exists = true;
    assert_eq!(db.plan_search_index(&again, at(12)).unwrap(), SearchWork::Heal);
    let bad = db.alter_search_index("f", &options(&[("body.analyzer", "de")]), Ok(()), at(13));
    assert!(bad.unwrap_err().message().starts_with("'body.analyzer' is an index-time option"));
    let merged = db.altered_search_options("f", &options(&[("refresh_ms", "5")])).unwrap();
    assert_eq!(merged, options(&[("body.analyzer", "en"), ("refresh_ms", "5")]));
    assert!(db.altered_search_options("x", &Vec::new()).is_none());
    db.alter_search_index("f", &options(&[("refresh_ms", "5")]), Ok(()), at(13)).unwrap();
    assert_eq!(
        db.catalog.search_indexes.get(&s("f")).unwrap().options,
        options(&[("body.analyzer", "en"), ("refresh_ms", "5")])
    );
    assert!(db.search_index_needs_healing("f", false));
    assert!(!db.search_index_needs_healing("f", true));
    assert!(db.rebuild_search_index_cmd("x").is_err());
    db.drop_search_index("f", false, at(14)).unwrap();
    assert!(matches!(
        db.drop_search_index("f", false, at(15)),
        Err(EngineError::IndexNotFound(_))
    ));
}

#[test]
fn databases_are_created_and_dropped_with_their_objects() {
    let mut db = with_table("t");
    assert_eq!(
        constraint(db.create_database("a\"b", false, false, at(11))),
        "invalid database name \"a\\\"b\": use letters, digits, '_' or '-' (max 64 chars)"
    );
    db.create_database("shop", true, false, at(11)).unwrap();
    assert!(matches!(
        db.create_database("shop", true, false, at(12)),
        Err(EngineError::DatabaseExists(_))
    ));
    assert_eq!(db.database_names(), strings(&["default", "shop"]));
    assert!(db.use_database("shop").is_ok());
    assert!(matches!(db.use_database("x"), Err(EngineError::DatabaseNotFound(_))));
    db.create_table(table("shop\u{1f}t"), at(12)).unwrap();
    db.create_index("shop\u{1f}i", "shop\u{1f}t", strings(&["v"]), false, false, true, at(13))
        .unwrap();
    db.create_timeseries_table("shop\u{1f}m", strings(&["host"]), None, 0, false, at(14)).unwrap();
    db.create_geo_index("shop\u{1f}g", "t", "loc", false, at(15)).unwrap();
    db.create_database("alpha", true, false, at(16)).unwrap();
    assert_eq!(db.database_names(), strings(&["alpha", "default", "shop"]));
    assert_eq!(
        constraint(db.drop_database("default", false, &stamps(20, 0))),
        "cannot drop the default database"
    );
    assert!(matches!(
        db.drop_database("x", false, &stamps(20, 0)),
        Err(EngineError::DatabaseNotFound(_))
    ));
    let report = db.drop_database("shop", false, &stamps(20, 2)).unwrap();
    assert_eq!(report.outcome, DdlOutcome::Applied);
    assert_eq!(report.tables.len(), 1);
    assert_eq!(report.series.len(), 1);
    assert_eq!(report.geo_indexes, strings(&["shop\u{1f}g"]));
    // Each drop has a stamp of its own, and the statement's where they run out.
    let stamp = |key: &str| db.catalog.schema_versions.get(&s(key)).unwrap().hlc;
    assert_eq!(stamp("t:shop\u{1f}t"), at(21));
    assert_eq!(stamp("t:shop\u{1f}m"), at(22));
    assert_eq!(stamp("g:shop\u{1f}g"), at(20));
    assert_eq!(stamp("d:shop"), at(20));
    assert!(!db.has_table("shop\u{1f}t") && db.has_table("t"));
    assert!(db.ts_table_names().is_empty());
    assert!(db.catalog.geo_indexes.get(&s("shop\u{1f}g")).is_none());
    assert!(db.catalog.indexes.get(&s("shop\u{1f}i")).is_none());
    assert_eq!(db.database_names(), strings(&["alpha", "default"]));
}

#[test]
fn users_and_roles_check_their_statements() {
    let mut db = empty();
    assert_eq!(
        constraint(db.create_user("ann", None, None, false, false, false, at(1))),
        "CREATE USER requires PASSWORD, VERIFIER, or GSSAPI"
    );
    assert_eq!(
        constraint(db.create_user("ann", None, Some((s("x"), false)), false, false, false, at(1))),
        "invalid VERIFIER encoding"
    );
    db.create_user("ann", Some(s("cred")), None, false, false, false, at(2)).unwrap();
    assert_eq!(db.auth_user("ann"), Some(&s("cred")));
    assert_eq!(
        constraint(db.create_user("ann", Some(s("c")), None, false, false, false, at(3))),
        "user \"ann\" already exists"
    );
    assert_eq!(
        constraint(db.drop_user("bob", false, at(3))),
        "user \"bob\" does not exist"
    );
    db.create_user("kim", None, None, true, false, false, at(3)).unwrap();
    assert_eq!(db.external_user_role("kim"), Some(s("kim")));
    assert_eq!(db.external_user_role("ann"), None);
    assert_eq!(db.catalog.users.get(&s("kim")).unwrap().auth_kind, UserAuthKind::Gssapi);
    db.create_auth_role("ops", None, false, at(4)).unwrap();
    assert_eq!(
        constraint(db.create_auth_role("ops", None, false, at(5))),
        "role \"ops\" already exists"
    );
    assert_eq!(
        constraint(db.drop_auth_role("ann", false, at(5))),
        "cannot drop a user's personal role; DROP USER instead"
    );
    assert_eq!(
        constraint(db.grant("ops", "fly", false, None, at(5))),
        "unknown privilege \"fly\""
    );
    assert_eq!(
        constraint(db.grant("nobody", "select", true, None, at(5))),
        "role \"nobody\" does not exist"
    );
    assert_eq!(
        constraint(db.grant_role_edge("ann", "nobody", true, at(5))),
        "role \"nobody\" does not exist"
    );
    db.grant("ops", "select", true, Some(s("t")), at(6)).unwrap();
    db.grant_role_edge("ann", "ops", true, at(7)).unwrap();
    let role = |db: &Database, n: &str| encode_role_state(db.catalog.auth_roles.get(&s(n)).unwrap());
    assert_eq!(role(&db, "ann"), "+ops");
    db.revoke("ops", "select", Some(s("t")), at(8)).unwrap();
    assert_eq!(role(&db, "ops"), "");
    db.drop_user("ann", false, at(9)).unwrap();
    assert!(db.auth_user("ann").is_none());
    assert!(db.catalog.auth_roles.get(&s("ann")).is_none());
}

#[test]
fn role_state_is_written_and_read_back() {
    let def = AuthRoleDef {
        grants: vec![(s("select"), Some(s("t"))), (s("admin"), None)],
        inherits: strings(&["base"]),
    };
    let enc = encode_role_state(&def);
    let back = decode_role_state(&enc, |p: &str| p == "select" || p == "admin").unwrap();
    assert_eq!(back.grants, def.grants);
    assert_eq!(back.inherits, def.inherits);
    assert!(constraint(decode_role_state(&enc, |p: &str| p == "admin"))
        .starts_with("bad role state: "));
    assert_eq!(constraint(decode_role_state("nonsense", |_p: &str| true)), "bad role state: nonsense");
}

#[test]
fn grant_objects_have_keys() {
    assert_eq!(grant_object_key(&GrantObject::Global), None);
    assert_eq!(grant_object_key(&GrantObject::Table(s("t"))), Some(s("t")));
    assert_eq!(grant_object_key(&GrantObject::Database(s("d"))), Some(s("db:d")));
    assert!(matches!(grant_object_of(&Some(s("db:d"))), GrantObject::Database(d) if d == "d"));
    assert!(matches!(grant_object_of(&Some(s("t"))), GrantObject::Table(t) if t == "t"));
    assert!(matches!(grant_object_of(&None), GrantObject::Global));
    assert!(contains_name(&strings(&["a", "b"]), "b"));
}

#[test]
fn the_role_store_is_rebuilt_from_the_catalog() {
    let mut db = empty();
    db.create_auth_role("base", None, false, at(1)).unwrap();
    db.create_auth_role("ops", None, false, at(2)).unwrap();
    db.grant("ops", "select", true, Some(s("t")), at(3)).unwrap();
    db.grant_role_edge("ops", "base", true, at(4)).unwrap();
    let ops = db.build_role_store(&|_p: &str| true);
    let shown: Vec<String> = ops
        .iter()
        .map(|o| match o {
            RoleOp::Create(n) => format!("create {n}"),
            RoleOp::Grant(r, p, _) => format!("grant {p} to {r}"),
            RoleOp::Inherit(m, p) => format!("{m} inherits {p}"),
        })
        .collect();
    assert!(shown.contains(&s("create base")) && shown.contains(&s("create ops")));
    assert!(shown.contains(&s("grant select to ops")));
    assert!(shown.contains(&s("ops inherits base")));
    assert_eq!(shown.len(), 4);
    let listing = show_grants(&vec![(s("ops"), s("select"), s("t"))]);
    assert_eq!(listing.columns, strings(&["role", "privilege", "object"]));
    assert!(matches!(&listing.rows[0][2], Cell::Text(o) if o == "t"));
}

#[test]
fn table_options_are_set() {
    let mut db = with_table("t");
    let set = |db: &mut Database, k: &str, v: &str| {
        db.set_table_options("t", &options(&[(k, v)]))
    };
    assert_eq!(
        constraint(set(&mut db, "ttl", "soon")),
        "ttl must be a duration like 30d (or integer ms), got 'soon'"
    );
    assert_eq!(constraint(set(&mut db, "ttl", "-1")), "ttl must not be negative");
    assert_eq!(
        constraint(set(&mut db, "replication", "two")),
        "replication must be a positive integer, got 'two'"
    );
    assert_eq!(constraint(set(&mut db, "replication", "0")), "replication must be at least 1");
    assert!(constraint(set(&mut db, "nodes", ",")).starts_with("SET (nodes = ...) needs at least"));
    assert!(unsupported(set(&mut db, "color", "red"))
        .starts_with("unknown ALTER TABLE option 'color'"));
    set(&mut db, "ttl", "7200000").unwrap();
    assert_eq!(db.table_ttl_ms("t"), Some(7_200_000));
    set(&mut db, "ttl", "0").unwrap();
    assert_eq!(db.table_ttl_ms("t"), None);
    set(&mut db, "nodes", "n1,n2").unwrap();
    let (now, before) = db.table_placement("t");
    assert_eq!(now.pinned_nodes, strings(&["n1", "n2"]));
    assert!(matches!(before, Some(Placement { replication: None, pinned_nodes }) if pinned_nodes.is_empty()));
    assert_eq!(db.tables_in_placement_transition(), strings(&["t"]));
    assert_eq!(db.tables_pinning("n2"), strings(&["t"]));
    assert!(constraint(set(&mut db, "replication", "3"))
        .starts_with("'t' already has a placement transition in progress"));
    set(&mut db, "placement_finalized", "true").unwrap();
    assert!(db.tables_in_placement_transition().is_empty());
    set(&mut db, "replication", "3").unwrap();
    assert_eq!(db.table_placement("t").0.replication, Some(3));
}

#[test]
fn timeseries_options_are_set() {
    let mut db = empty();
    db.create_timeseries_table("m", strings(&["host"]), None, 0, false, at(1)).unwrap();
    let set = |db: &mut Database, k: &str, v: &str| {
        db.set_ts_table_options("m", &options(&[(k, v)]))
    };
    assert_eq!(
        constraint(set(&mut db, "retention", "soon")),
        "retention must be a duration like 60d (or integer ms), got 'soon'"
    );
    assert_eq!(constraint(set(&mut db, "ooo", "-5")), "ooo must not be negative");
    assert_eq!(
        unsupported(set(&mut db, "ttl", "5")),
        "unknown ALTER TABLE option 'ttl' for a timeseries table (supported: retention, ooo)"
    );
    set(&mut db, "retention", "86400000").unwrap();
    assert_eq!(db.ts_table_def("m").unwrap().retention_ms, Some(86_400_000));
}

#[test]
fn alter_table_is_planned() {
    let mut db = with_table("t");
    db.create_timeseries_table("m", strings(&["host"]), None, 0, false, at(11)).unwrap();
    let set = || AlterAction::SetOptions { options: options(&[("ttl", "1")]) };
    let rename = || AlterAction::RenameTable { new_name: s("u") };
    assert_eq!(db.plan_alter_table("t", &set()).unwrap(), AlterKind::SetTableOptions);
    assert_eq!(db.plan_alter_table("m", &set()).unwrap(), AlterKind::SetTimeseriesOptions);
    assert_eq!(db.plan_alter_table("t", &rename()).unwrap(), AlterKind::RenameTable);
    assert_eq!(
        unsupported(db.plan_alter_table("m", &rename())),
        "timeseries tables support ALTER TABLE ... SET (retention/ooo) only"
    );
    assert!(matches!(db.plan_alter_table("x", &set()), Err(EngineError::TableNotFound(_))));
}

#[test]
fn alter_table_is_carried_out() {
    let mut db = with_table("t");
    db.create_search_index(search("f"), Ok(()), at(11)).unwrap();
    let set = AlterAction::SetOptions { options: options(&[("ttl", "5000")]) };
    assert!(db.alter_table("t", &set).unwrap().is_empty());
    assert_eq!(db.table_ttl_ms("t"), Some(5000));
    let column = AlterAction::RenameColumn { from: s("body"), to: s("text") };
    assert_eq!(db.alter_table("t", &column).unwrap(), strings(&["f"]));
    assert_eq!(db.catalog.search_indexes.get(&s("f")).unwrap().paths, strings(&["text"]));
    let rename = AlterAction::RenameTable { new_name: s("u") };
    assert!(db.alter_table("t", &rename).unwrap().is_empty());
    assert!(db.has_table("u") && !db.has_table("t"));
    assert_eq!(db.search_indexes_on("u"), strings(&["f"]));
    assert!(matches!(db.alter_table("t", &rename), Err(EngineError::TableNotFound(_))));
}

#[test]
fn a_table_is_renamed_with_its_indexes() {
    let mut db = with_table("t");
    db.create_table(table("taken"), at(11)).unwrap();
    db.create_index("i", "t", strings(&["v"]), false, false, true, at(12)).unwrap();
    db.create_geo_index("g", "t", "loc", false, at(13)).unwrap();
    assert!(matches!(db.rename_table("t", "taken"), Err(EngineError::TableExists(_))));
    db.rename_table("t", "u").unwrap();
    assert!(db.has_table("u") && !db.has_table("t"));
    assert_eq!(db.index_owner_table("i", "default"), Some(s("u")));
    assert_eq!(db.catalog.geo_indexes.get(&s("g")).unwrap().table, "u");
    db.rename_table("u", "t").unwrap();
    assert_eq!(db.index_owner_table("i", "default"), Some(s("t")));
}

#[test]
fn a_column_is_renamed_in_the_key_and_the_indexes() {
    let mut db = with_table("t");
    db.create_index("i", "t", strings(&["v[]"]), false, false, true, at(12)).unwrap();
    db.create_search_index(search("f"), Ok(()), at(13)).unwrap();
    db.create_geo_index("g", "t", "v", false, at(14)).unwrap();
    db.finish_geo_backfill("g");
    db.take_pending_geo_backfills();
    db.create_table(table("u"), at(14)).unwrap();
    db.create_index("j", "u", strings(&["v"]), false, false, true, at(15)).unwrap();
    assert_eq!(db.rename_column("t", "v", "w"), strings(&["f"]));
    assert_eq!(db.catalog.indexes.get(&s("i")).unwrap().paths, strings(&["w[]"]));
    let g = db.catalog.geo_indexes.get(&s("g")).unwrap();
    assert!(g.path == "w" && g.building);
    assert_eq!(db.take_pending_geo_backfills(), strings(&["g"]));
    // The other table has a column of that name too.
    assert_eq!(db.catalog.indexes.get(&s("j")).unwrap().paths, strings(&["v"]));
    db.rename_column("t", "id", "key");
    assert_eq!(db.table_primary_key("t").unwrap(), strings(&["key"]));
    db.rename_column("t", "body", "text");
    assert_eq!(db.catalog.search_indexes.get(&s("f")).unwrap().paths, strings(&["text"]));
}

#[test]
fn indexes_are_rebuilt() {
    let mut db = with_table("t");
    db.create_index("i", "t", strings(&["v"]), false, false, false, at(12)).unwrap();
    assert_eq!(db.take_pending_backfills(), strings(&["i"]));
    db.finish_index_backfill("i");
    db.rebuild_index("i").unwrap();
    assert!(db.catalog.indexes.get(&s("i")).unwrap().building);
    assert_eq!(db.take_pending_backfills(), strings(&["i"]));
    assert!(matches!(db.rebuild_index("x"), Err(EngineError::IndexNotFound(_))));
    assert!(matches!(db.rebuild_vector_index("x"), Err(EngineError::IndexNotFound(_))));
}
