//! What a node's schema comes to on a peer that replays it.

use vstd::prelude::*;

use crate::catalog::option_views;
use crate::catalog::CatalogView;
use crate::catalog::GeoIndexView;
use crate::catalog::IndexView;
use crate::catalog::RollupView;
use crate::catalog::SchemaVersion;
use crate::catalog::SearchIndexView;
use crate::catalog::TableView;
use crate::catalog::TsTableView;
use crate::catalog::VectorIndexView;
use crate::database::DbView;
use crate::ddl_database::create_database_step;
use crate::ddl_database::drop_database_step;
use crate::ddl_database::StampsView;
use crate::ddl_index::several_multikey;
use crate::ddl_table::asked_table;
use crate::ddl_table::bucket_ok;
use crate::ddl_table::series_column_ok;
use crate::ddl_vector::covers;
use crate::dispatch::in_db;
use crate::dispatch::schema_step;
use crate::dispatch::SchemaFacts;
use crate::hlc::Hlc;
use crate::namespace::split_name;
use crate::schema_sync::drop_text;
use crate::schema_sync::stamp_of;
use crate::statement::Statement;
use crate::text::has_prefix;
use crate::text::lowered;
use crate::text::views;

verus! {

/// The kinds of objects that a schema version is kept of.
pub enum Kind {
    Database,
    Table,
    Index,
    Vector,
    Geo,
    Search,
}

/// A schema object: its kind and its name.
pub type Object = (Kind, Seq<char>);

/// What the version keys of a kind begin with.
pub open spec fn tag(k: Kind) -> Seq<char> {
    match k {
        Kind::Database => "d:"@,
        Kind::Table => "t:"@,
        Kind::Index => "i:"@,
        Kind::Vector => "v:"@,
        Kind::Geo => "g:"@,
        Kind::Search => "s:"@,
    }
}

/// The version key of an object.
pub open spec fn key_of(o: Object) -> Seq<char> {
    tag(o.0) + o.1
}

/// The object that a version key is of, if it is of one of these kinds.
pub open spec fn object_at(key: Seq<char>) -> Option<Object> {
    if key.len() < 2 {
        None
    } else if key.take(2) == "d:"@ {
        Some((Kind::Database, key.skip(2)))
    } else if key.take(2) == "t:"@ {
        Some((Kind::Table, key.skip(2)))
    } else if key.take(2) == "i:"@ {
        Some((Kind::Index, key.skip(2)))
    } else if key.take(2) == "v:"@ {
        Some((Kind::Vector, key.skip(2)))
    } else if key.take(2) == "g:"@ {
        Some((Kind::Geo, key.skip(2)))
    } else if key.take(2) == "s:"@ {
        Some((Kind::Search, key.skip(2)))
    } else {
        None
    }
}

proof fn lemma_tags()
    ensures
        forall|k: Kind| (#[trigger] tag(k)).len() == 2,
        forall|a: Kind, b: Kind| #[trigger] tag(a) == #[trigger] tag(b) ==> a == b,
{
    reveal_strlit("d:");
    reveal_strlit("t:");
    reveal_strlit("i:");
    reveal_strlit("v:");
    reveal_strlit("g:");
    reveal_strlit("s:");
    assert forall|a: Kind, b: Kind| #[trigger] tag(a) == #[trigger] tag(b) implies a == b by {
        assert(tag(a)[0] == tag(b)[0]);
    }
}

/// An object's version key is of that object.
pub proof fn lemma_object_at(o: Object)
    ensures
        object_at(key_of(o)) == Some(o),
{
    lemma_tags();
    assert(tag(o.0).len() == 2);
    assert(key_of(o).take(2) =~= tag(o.0));
    assert(key_of(o).skip(2) =~= o.1);
    assert(tag(Kind::Database) == "d:"@);
    assert(tag(Kind::Table) == "t:"@);
    assert(tag(Kind::Index) == "i:"@);
    assert(tag(Kind::Vector) == "v:"@);
    assert(tag(Kind::Geo) == "g:"@);
    assert(tag(Kind::Search) == "s:"@);
}

/// A version key is the one of the object that it is of.
pub proof fn lemma_key_of(key: Seq<char>)
    ensures
        object_at(key) matches Some(o) ==> key_of(o) == key,
{
    if object_at(key) is Some {
        assert(key.take(2) + key.skip(2) =~= key);
    }
}

/// A statement of a schema, by the definition that it makes or the object that
/// it drops.
pub enum Item {
    Database(Seq<char>),
    Table(Seq<char>, TableView),
    Series(Seq<char>, TsTableView),
    /// A rollup by its name, its source and its bucket.
    Rollup(Seq<char>, Seq<char>, i64, TsTableView),
    Index(Seq<char>, IndexView),
    Vector(Seq<char>, VectorIndexView),
    /// A search index with its rendered options.
    Search(Seq<char>, SearchIndexView, Seq<char>),
    Geo(Seq<char>, GeoIndexView),
    Drop(Object),
}

/// The object that an item is about.
pub open spec fn object_of(x: Item) -> Object {
    match x {
        Item::Database(n) => (Kind::Database, n),
        Item::Table(n, _) => (Kind::Table, n),
        Item::Series(n, _) => (Kind::Table, n),
        Item::Rollup(n, _, _, _) => (Kind::Table, n),
        Item::Index(n, _) => (Kind::Index, n),
        Item::Vector(n, _) => (Kind::Vector, n),
        Item::Search(n, _, _) => (Kind::Search, n),
        Item::Geo(n, _) => (Kind::Geo, n),
        Item::Drop(o) => o,
    }
}

/// The objects that items are about.
pub open spec fn objects_of(xs: Seq<Item>) -> Set<Object>
    decreases xs.len(),
{
    if xs.len() == 0 {
        Set::empty()
    } else {
        objects_of(xs.drop_last()).insert(object_of(xs.last()))
    }
}

/// The window of late samples that a statement asks for.
pub open spec fn late_window(def: TsTableView) -> i64 {
    if def.ooo_window_ms > 0 {
        def.ooo_window_ms
    } else {
        0
    }
}

/// Whether a statement is the one that an item stands for: the options that
/// its text names are the definition's, the others are the defaults.
pub open spec fn stands_for(stmt: Statement, x: Item) -> bool {
    match (x, stmt) {
        (Item::Database(n), Statement::CreateDatabase { name, if_not_exists }) => name@ == n
            && if_not_exists,
        (Item::Table(n, d), Statement::CreateTable(ct)) => {
            &&& ct.name@ == n
            &&& ct.if_not_exists
            &&& views(ct.primary_key@) == d.primary_key
            &&& ct.ttl_ms == d.ttl_ms
            &&& ct.memory == d.memory
            &&& ct.replication is None
            &&& ct.nodes@.len() == 0
            &&& ct.witness
        },
        (Item::Series(n, d), Statement::CreateTimeseriesTable(ct)) => {
            &&& ct.name@ == n
            &&& ct.if_not_exists
            &&& views(ct.series_key@) == d.series_key
            &&& ct.retention_ms == d.retention_ms
            &&& ct.ooo_ms == (if d.ooo_window_ms > 0 {
                Some(d.ooo_window_ms)
            } else {
                None
            })
        },
        (Item::Rollup(n, source, bucket, d), Statement::CreateRollup(cr)) => {
            &&& cr.name@ == n
            &&& cr.if_not_exists
            &&& cr.table@ == source
            &&& cr.bucket_ms == bucket
            &&& cr.retention_ms == d.retention_ms
        },
        (Item::Index(n, d), Statement::CreateIndex(ci)) => {
            &&& ci.name@ == n
            &&& ci.if_not_exists
            &&& ci.table@ == d.table
            &&& views(ci.paths@) == d.paths
            &&& ci.global == d.global
            &&& ci.ready == (d.global && !d.building)
        },
        (Item::Vector(n, d), Statement::CreateVectorIndex(ci)) => {
            &&& ci.name@ == n
            &&& ci.if_not_exists
            &&& ci.table@ == d.table
            &&& ci.path@ == d.path
            &&& ci.metric@ == d.metric
            &&& ci.dim == Some(d.dim)
            &&& ci.quantized == d.quantized
            &&& ci.embed == d.embed
        },
        (Item::Search(n, d, _), Statement::CreateSearchIndex(ci)) => {
            &&& ci.name@ == n
            &&& ci.if_not_exists
            &&& ci.table@ == d.table
            &&& views(ci.paths@) == d.paths
            &&& option_views(ci.options@) == d.options
        },
        (Item::Geo(n, d), Statement::CreateGeoIndex(ci)) => {
            &&& ci.name@ == n
            &&& ci.if_not_exists
            &&& ci.table@ == d.table
            &&& ci.path@ == d.path
        },
        (Item::Drop(o), Statement::DropDatabase { name, if_exists }) => o == (
            Kind::Database,
            name@,
        ) && if_exists,
        (Item::Drop(o), Statement::DropTable { name, if_exists }) => o == (Kind::Table, name@)
            && if_exists,
        (Item::Drop(o), Statement::DropIndex { name, if_exists }) => o == (Kind::Index, name@)
            && if_exists,
        (Item::Drop(o), Statement::DropVectorIndex { name, if_exists }) => o == (
            Kind::Vector,
            name@,
        ) && if_exists,
        (Item::Drop(o), Statement::DropGeoIndex { name, if_exists }) => o == (Kind::Geo, name@)
            && if_exists,
        (Item::Drop(o), Statement::DropSearchIndex { name, if_exists }) => o == (
            Kind::Search,
            name@,
        ) && if_exists,
        _ => false,
    }
}

/// The database that a replayed statement leaves.
pub open spec fn replayed(v: DbView, stmt: Statement, f: SchemaFacts, hlc: Hlc) -> DbView {
    match stmt {
        Statement::CreateDatabase { name, if_not_exists } => in_db(
            v,
            create_database_step(v.cat, name@, true, if_not_exists, hlc),
        ).1,
        Statement::DropDatabase { name, if_exists } => drop_database_step(
            v,
            name@,
            if_exists,
            StampsView { own: hlc, fresh: Seq::empty() },
        ).1,
        _ => schema_step(v, stmt, f, hlc).1,
    }
}

/// The database that a run of replayed statements leaves, each at its stamp.
pub open spec fn replay(v: DbView, stmts: Seq<(Statement, Hlc)>, f: SchemaFacts) -> DbView
    decreases stmts.len(),
{
    if stmts.len() == 0 {
        v
    } else {
        replayed(replay(v, stmts.drop_last(), f), stmts.last().0, f, stmts.last().1)
    }
}

/// Whether an object is live.
pub open spec fn live(c: CatalogView, o: Object) -> bool {
    match o.0 {
        Kind::Database => c.databases.contains(o.1),
        Kind::Table => c.tables.dom().contains(o.1) || c.timeseries.dom().contains(o.1),
        Kind::Index => c.indexes.dom().contains(o.1),
        Kind::Vector => c.vector_indexes.dom().contains(o.1),
        Kind::Geo => c.geo_indexes.dom().contains(o.1),
        Kind::Search => c.search_indexes.dom().contains(o.1),
    }
}

/// Whether an object has a tombstone.
pub open spec fn entombed(c: CatalogView, o: Object) -> bool {
    c.versions.dom().contains(key_of(o)) && c.versions[key_of(o)].dropped
}

/// Whether a time-series table's rollups are registered on it, each once, and
/// it is one that can be made anew.
pub open spec fn series_holds(
    ts: Map<Seq<char>, TsTableView>,
    n: Seq<char>,
) -> bool {
    match ts[n].rollup_of {
        Some(s) => ts[n].rollups.len() == 0 && ts.dom().contains(s) && ts[s].rollup_of is None
            && exists|i: int|
            0 <= i < ts[s].rollups.len() && (#[trigger] ts[s].rollups[i]).name == n,
        None => {
            &&& ts[n].series_key.len() > 0
            &&& forall|i: int|
                0 <= i < ts[n].series_key.len() ==> series_column_ok(
                    #[trigger] ts[n].series_key[i],
                )
            &&& forall|i: int|
                0 <= i < ts[n].rollups.len() ==> ({
                    let r = #[trigger] ts[n].rollups[i];
                    ts.dom().contains(r.name) && ts[r.name].rollup_of == Some(n) && bucket_ok(
                        r.bucket_ms as int,
                    )
                })
            &&& forall|i: int, j: int|
                0 <= i < j < ts[n].rollups.len() ==> (#[trigger] ts[n].rollups[i]).name != (
                #[trigger] ts[n].rollups[j]).name
        },
    }
}

/// Whether each table can be made anew: no entry table is among them.
pub open spec fn tables_settled(c: CatalogView) -> bool {
    forall|n: Seq<char>| #[trigger]
        c.tables.dom().contains(n) ==> c.tables[n].primary_key.len() > 0 && !has_prefix(
            split_name(n).1,
            "__gidx__"@,
        ) && !c.timeseries.dom().contains(n)
}

/// Whether each time-series table can be made anew.
pub open spec fn series_settled(c: CatalogView) -> bool {
    forall|n: Seq<char>| #[trigger]
        c.timeseries.dom().contains(n) ==> series_holds(c.timeseries, n)
}

/// Whether each secondary index can be made anew: none is global.
pub open spec fn indexes_settled(c: CatalogView) -> bool {
    forall|n: Seq<char>| #[trigger]
        c.indexes.dom().contains(n) ==> !c.indexes[n].global && c.tables.dom().contains(
            c.indexes[n].table,
        ) && !c.tables[c.indexes[n].table].memory && !several_multikey(c.indexes[n].paths)
}

/// Whether each vector index can be made anew: none embeds, and no two are on
/// one column.
pub open spec fn vectors_settled(c: CatalogView) -> bool {
    forall|n: Seq<char>| #[trigger]
        c.vector_indexes.dom().contains(n) ==> ({
            let d = c.vector_indexes[n];
            &&& !d.embed
            &&& c.tables.dom().contains(d.table)
            &&& lowered(d.metric) == d.metric
            &&& forall|o: Seq<char>| !#[trigger] covers(c.vector_indexes, n, d.table, d.path, o)
        })
}

/// Whether each search index can be made anew.
pub open spec fn searches_settled(c: CatalogView) -> bool {
    forall|n: Seq<char>| #[trigger]
        c.search_indexes.dom().contains(n) ==> c.tables.dom().contains(c.search_indexes[n].table)
}

/// Whether each geo index can be made anew.
pub open spec fn geos_settled(c: CatalogView) -> bool {
    forall|n: Seq<char>| #[trigger]
        c.geo_indexes.dom().contains(n) ==> c.tables.dom().contains(c.geo_indexes[n].table)
            && !c.tables[c.geo_indexes[n].table].memory
}

/// Whether what has a tombstone is gone, and is no user and no role.
pub open spec fn tombstones_settled(c: CatalogView) -> bool {
    forall|k: Seq<char>| #[trigger]
        c.versions.dom().contains(k) && c.versions[k].dropped ==> ({
            &&& drop_text(k) is Some ==> object_at(k) is Some
            &&& object_at(k) matches Some(o) ==> !live(c, o) && o != (Kind::Database, "default"@)
        })
}

/// Whether a catalog is one that its own statements lead to, without users,
/// roles, global indexes and embedding indexes: each definition is valid, an
/// index is on a table that is there, and what has a tombstone is gone.
pub open spec fn settled(c: CatalogView) -> bool {
    &&& c.users.dom() =~= Set::empty()
    &&& c.auth_roles.dom() =~= Set::empty()
    &&& !c.databases.contains("default"@)
    &&& tables_settled(c)
    &&& series_settled(c)
    &&& indexes_settled(c)
    &&& vectors_settled(c)
    &&& searches_settled(c)
    &&& geos_settled(c)
    &&& tombstones_settled(c)
}

/// A table as its statement makes it.
pub open spec fn made_table(d: TableView) -> TableView {
    TableView {
        replication: None,
        pinned_nodes: Seq::empty(),
        witness: true,
        prev_placement: None,
        ..d
    }
}

/// A time-series table as its statement and those of the rollups among these
/// objects make it.
pub open spec fn made_series(ts: Map<Seq<char>, TsTableView>, n: Seq<char>, done: Set<Object>) -> TsTableView {
    match ts[n].rollup_of {
        None => TsTableView {
            rollups: ts[n].rollups.filter(
                |r: RollupView| done.contains((Kind::Table, r.name)),
            ),
            ooo_window_ms: late_window(ts[n]),
            ..ts[n]
        },
        Some(s) => TsTableView {
            series_key: ts[s].series_key,
            ooo_window_ms: 0,
            rollups: Seq::empty(),
            ..ts[n]
        },
    }
}

/// The catalog that the statements of some of the objects make.
pub open spec fn made(c: CatalogView, done: Set<Object>) -> CatalogView {
    CatalogView {
        databases: c.databases.filter(|n: Seq<char>| done.contains((Kind::Database, n))),
        tables: Map::new(
            |n: Seq<char>| c.tables.dom().contains(n) && done.contains((Kind::Table, n)),
            |n: Seq<char>| made_table(c.tables[n]),
        ),
        timeseries: Map::new(
            |n: Seq<char>| c.timeseries.dom().contains(n) && done.contains((Kind::Table, n)),
            |n: Seq<char>| made_series(c.timeseries, n, done),
        ),
        indexes: Map::new(
            |n: Seq<char>| c.indexes.dom().contains(n) && done.contains((Kind::Index, n)),
            |n: Seq<char>| IndexView { building: true, ..c.indexes[n] },
        ),
        vector_indexes: Map::new(
            |n: Seq<char>| c.vector_indexes.dom().contains(n) && done.contains((Kind::Vector, n)),
            |n: Seq<char>| VectorIndexView { ef_search: None, ..c.vector_indexes[n] },
        ),
        search_indexes: Map::new(
            |n: Seq<char>| c.search_indexes.dom().contains(n) && done.contains((Kind::Search, n)),
            |n: Seq<char>| c.search_indexes[n],
        ),
        geo_indexes: Map::new(
            |n: Seq<char>| c.geo_indexes.dom().contains(n) && done.contains((Kind::Geo, n)),
            |n: Seq<char>| GeoIndexView { building: true, ..c.geo_indexes[n] },
        ),
        users: Map::empty(),
        auth_roles: Map::empty(),
        versions: Map::new(
            |k: Seq<char>| object_at(k) matches Some(o) && done.contains(o),
            |k: Seq<char>|
                SchemaVersion {
                    hlc: stamp_of(c.versions, k),
                    dropped: c.versions.dom().contains(k) && c.versions[k].dropped,
                },
        ),
    }
}

/// Whether an item is one of the catalog's, not yet among the objects made,
/// and what it is on is.
pub open spec fn next_item(c: CatalogView, done: Set<Object>, x: Item) -> bool {
    &&& !done.contains(object_of(x))
    &&& match x {
        Item::Database(n) => c.databases.contains(n),
        Item::Table(n, d) => c.tables.dom().contains(n) && c.tables[n] == d,
        Item::Series(n, d) => c.timeseries.dom().contains(n) && c.timeseries[n] == d
            && d.rollup_of is None && forall|i: int|
            0 <= i < d.rollups.len() ==> !done.contains(
                (Kind::Table, (#[trigger] d.rollups[i]).name),
            ),
        Item::Rollup(n, s, bucket, d) => {
            &&& c.timeseries.dom().contains(n)
            &&& c.timeseries[n] == d
            &&& d.rollup_of == Some(s)
            &&& done.contains((Kind::Table, s))
            &&& next_rollup(c.timeseries[s].rollups, done, RollupView { name: n, bucket_ms: bucket })
        },
        Item::Index(n, d) => c.indexes.dom().contains(n) && c.indexes[n] == d && done.contains(
            (Kind::Table, d.table),
        ),
        Item::Vector(n, d) => c.vector_indexes.dom().contains(n) && c.vector_indexes[n] == d
            && done.contains((Kind::Table, d.table)),
        Item::Search(n, d, _) => c.search_indexes.dom().contains(n) && c.search_indexes[n] == d
            && done.contains((Kind::Table, d.table)),
        Item::Geo(n, d) => c.geo_indexes.dom().contains(n) && c.geo_indexes[n] == d
            && done.contains((Kind::Table, d.table)),
        Item::Drop(o) => entombed(c, o),
    }
}

/// Whether a rollup is the first of a list that is not yet made.
pub open spec fn next_rollup(rs: Seq<RollupView>, done: Set<Object>, r: RollupView) -> bool {
    exists|j: int|
        0 <= j < rs.len() && #[trigger] rs[j] == r && (forall|i: int|
            0 <= i < rs.len() ==> (done.contains((Kind::Table, (#[trigger] rs[i]).name)) <==> i
                < j))
}

/// One more object changes the list of rollups made only where it is one.
proof fn lemma_same_rollups(rs: Seq<RollupView>, done: Set<Object>, o: Object)
    requires
        forall|i: int| 0 <= i < rs.len() ==> o != (Kind::Table, (#[trigger] rs[i]).name),
    ensures
        rs.filter(|r: RollupView| done.contains((Kind::Table, r.name))) == rs.filter(
            |r: RollupView| done.insert(o).contains((Kind::Table, r.name)),
        ),
    decreases rs.len(),
{
    reveal(Seq::filter);
    if rs.len() > 0 {
        assert forall|i: int| 0 <= i < rs.drop_last().len() implies o != (
            Kind::Table,
            (#[trigger] rs.drop_last()[i]).name,
        ) by {
            assert(rs.drop_last()[i] == rs[i]);
        }
        lemma_same_rollups(rs.drop_last(), done, o);
        assert(rs.last() == rs[rs.len() - 1]);
    }
}

/// The rollups made are a run from the front.
pub proof fn lemma_rollups_made(rs: Seq<RollupView>, done: Set<Object>, j: int)
    requires
        0 <= j <= rs.len(),
        forall|i: int|
            0 <= i < rs.len() ==> (done.contains((Kind::Table, (#[trigger] rs[i]).name)) <==> i
                < j),
    ensures
        rs.filter(|r: RollupView| done.contains((Kind::Table, r.name))) == rs.take(j),
    decreases rs.len(),
{
    reveal(Seq::filter);
    if rs.len() > 0 {
        let init = rs.drop_last();
        assert forall|i: int| 0 <= i < init.len() implies (done.contains(
            (Kind::Table, (#[trigger] init[i]).name),
        ) <==> i < j) by {
            assert(init[i] == rs[i]);
        }
        let n = rs.len() - 1;
        assert(rs[n] == rs.last());
        if j == rs.len() {
            lemma_rollups_made(init, done, n);
            assert(init.take(n).push(rs.last()) =~= rs.take(j));
        } else {
            lemma_rollups_made(init, done, j);
            assert(init.take(j) =~= rs.take(j));
        }
    } else {
        assert(rs.take(j) =~= rs);
    }
}

/// What one more object leaves as it was, and the version that it brings.
proof fn lemma_one_more(c: CatalogView, done: Set<Object>, o: Object)
    requires
        settled(c),
    ensures
        ({
            let a = made(c, done);
            let b = made(c, done.insert(o));
            &&& o.0 != Kind::Database || !c.databases.contains(o.1) ==> b.databases == a.databases
            &&& o.0 != Kind::Table || !c.tables.dom().contains(o.1) ==> b.tables == a.tables
            &&& o.0 != Kind::Table || !c.timeseries.dom().contains(o.1) ==> b.timeseries
                == a.timeseries
            &&& o.0 != Kind::Index || !c.indexes.dom().contains(o.1) ==> b.indexes == a.indexes
            &&& o.0 != Kind::Vector || !c.vector_indexes.dom().contains(o.1) ==> b.vector_indexes
                == a.vector_indexes
            &&& o.0 != Kind::Search || !c.search_indexes.dom().contains(o.1) ==> b.search_indexes
                == a.search_indexes
            &&& o.0 != Kind::Geo || !c.geo_indexes.dom().contains(o.1) ==> b.geo_indexes
                == a.geo_indexes
            &&& b.versions == a.versions.insert(
                key_of(o),
                SchemaVersion {
                    hlc: stamp_of(c.versions, key_of(o)),
                    dropped: entombed(c, o),
                },
            )
        }),
{
    let a = made(c, done);
    let b = made(c, done.insert(o));
    lemma_object_at(o);
    assert forall|k: Seq<char>| object_at(k) == Some(o) implies k == key_of(o) by {
        lemma_key_of(k);
    }
    assert(b.versions =~= a.versions.insert(
        key_of(o),
        SchemaVersion { hlc: stamp_of(c.versions, key_of(o)), dropped: entombed(c, o) },
    ));
    if o.0 != Kind::Database || !c.databases.contains(o.1) {
        assert(b.databases =~= a.databases);
    }
    if o.0 != Kind::Table || !c.tables.dom().contains(o.1) {
        assert(b.tables =~= a.tables);
    }
    if o.0 != Kind::Table || !c.timeseries.dom().contains(o.1) {
        assert forall|n: Seq<char>| c.timeseries.dom().contains(n) implies #[trigger] made_series(
            c.timeseries,
            n,
            done.insert(o),
        ) == made_series(c.timeseries, n, done) by {
            assert(series_holds(c.timeseries, n));
            if c.timeseries[n].rollup_of is None {
                lemma_same_rollups(c.timeseries[n].rollups, done, o);
            }
        }
        assert(b.timeseries =~= a.timeseries);
    }
    if o.0 != Kind::Index || !c.indexes.dom().contains(o.1) {
        assert(b.indexes =~= a.indexes);
    }
    if o.0 != Kind::Vector || !c.vector_indexes.dom().contains(o.1) {
        assert(b.vector_indexes =~= a.vector_indexes);
    }
    if o.0 != Kind::Search || !c.search_indexes.dom().contains(o.1) {
        assert(b.search_indexes =~= a.search_indexes);
    }
    if o.0 != Kind::Geo || !c.geo_indexes.dom().contains(o.1) {
        assert(b.geo_indexes =~= a.geo_indexes);
    }
}

/// A live object has no tombstone, and a version of it is not made yet.
proof fn lemma_live(c: CatalogView, done: Set<Object>, o: Object)
    requires
        settled(c),
    ensures
        live(c, o) ==> !entombed(c, o),
        made(c, done).versions.dom().contains(key_of(o)) == done.contains(o),
{
    lemma_object_at(o);
    if entombed(c, o) {
        assert(c.versions.dom().contains(key_of(o)));
    }
}

/// Whether what an index's creation asks outside the catalog goes well: its
/// metric is known, and its data could be built.
pub open spec fn makes_indexes(f: SchemaFacts) -> bool {
    f.vector.metric_known && f.search is Ok
}

proof fn lemma_table_made(
    c: CatalogView,
    done: Set<Object>,
    x: Item,
    stmt: Statement,
    f: SchemaFacts,
    v: DbView,
)
    requires
        settled(c),
        next_item(c, done, x),
        stands_for(stmt, x),
        makes_indexes(f),
        v.cat == made(c, done),
        x is Database || x is Table,
    ensures
        replayed(v, stmt, f, stamp_of(c.versions, key_of(object_of(x)))).cat == made(
            c,
            done.insert(object_of(x)),
        ),
{
    let o = object_of(x);
    let hlc = stamp_of(c.versions, key_of(o));
    lemma_live(c, done, o);
    lemma_one_more(c, done, o);
    let w = replayed(v, stmt, f, hlc).cat;
    let b = made(c, done.insert(o));
    match x {
        Item::Database(n) => {
            assert(w.databases =~= b.databases);
        },
        Item::Table(n, d) => {
            if let Statement::CreateTable(ct) = stmt {
                assert(views(ct.nodes@) =~= Seq::<Seq<char>>::empty());
                assert(asked_table(ct) == made_table(d));
            }
            assert(w.tables =~= b.tables);
        },
        _ => {},
    }
    assert(w.versions == b.versions);
}

proof fn lemma_index_made(
    c: CatalogView,
    done: Set<Object>,
    x: Item,
    stmt: Statement,
    f: SchemaFacts,
    v: DbView,
)
    requires
        settled(c),
        next_item(c, done, x),
        stands_for(stmt, x),
        makes_indexes(f),
        v.cat == made(c, done),
        x is Index || x is Geo || x is Search,
    ensures
        replayed(v, stmt, f, stamp_of(c.versions, key_of(object_of(x)))).cat == made(
            c,
            done.insert(object_of(x)),
        ),
{
    let o = object_of(x);
    let hlc = stamp_of(c.versions, key_of(o));
    lemma_live(c, done, o);
    lemma_one_more(c, done, o);
    let w = replayed(v, stmt, f, hlc).cat;
    let b = made(c, done.insert(o));
    match x {
        Item::Index(n, d) => {
            assert(c.indexes.dom().contains(n));
            assert(v.cat.tables.dom().contains(d.table));
            assert(w.indexes =~= b.indexes);
        },
        Item::Geo(n, d) => {
            assert(c.geo_indexes.dom().contains(n));
            assert(v.cat.tables.dom().contains(d.table));
            assert(w.geo_indexes =~= b.geo_indexes);
        },
        Item::Search(n, d, _) => {
            assert(c.search_indexes.dom().contains(n));
            assert(v.cat.tables.dom().contains(d.table));
            assert(w.search_indexes =~= b.search_indexes);
        },
        _ => {},
    }
    assert(w.versions == b.versions);
}

proof fn lemma_vector_made(
    c: CatalogView,
    done: Set<Object>,
    x: Item,
    stmt: Statement,
    f: SchemaFacts,
    v: DbView,
)
    requires
        settled(c),
        next_item(c, done, x),
        stands_for(stmt, x),
        makes_indexes(f),
        v.cat == made(c, done),
        x is Vector,
    ensures
        replayed(v, stmt, f, stamp_of(c.versions, key_of(object_of(x)))).cat == made(
            c,
            done.insert(object_of(x)),
        ),
{
    let o = object_of(x);
    let hlc = stamp_of(c.versions, key_of(o));
    lemma_live(c, done, o);
    lemma_one_more(c, done, o);
    let w = replayed(v, stmt, f, hlc).cat;
    let b = made(c, done.insert(o));
    if let Item::Vector(n, d) = x {
        assert(c.vector_indexes.dom().contains(n));
        assert(v.cat.tables.dom().contains(d.table));
        assert forall|m: Seq<char>| !#[trigger] covers(
            v.cat.vector_indexes,
            n,
            d.table,
            d.path,
            m,
        ) by {
            assert(!covers(c.vector_indexes, n, d.table, d.path, m));
        }
        assert(w.vector_indexes =~= b.vector_indexes);
    }
    assert(w.versions == b.versions);
}

proof fn lemma_drop_made(
    c: CatalogView,
    done: Set<Object>,
    x: Item,
    stmt: Statement,
    f: SchemaFacts,
    v: DbView,
)
    requires
        settled(c),
        next_item(c, done, x),
        stands_for(stmt, x),
        makes_indexes(f),
        v.cat == made(c, done),
        x is Drop,
    ensures
        replayed(v, stmt, f, stamp_of(c.versions, key_of(object_of(x)))).cat == made(
            c,
            done.insert(object_of(x)),
        ),
{
    let o = object_of(x);
    let hlc = stamp_of(c.versions, key_of(o));
    lemma_object_at(o);
    lemma_live(c, done, o);
    lemma_one_more(c, done, o);
    let w = replayed(v, stmt, f, hlc).cat;
    let b = made(c, done.insert(o));
    assert(c.versions.dom().contains(key_of(o)));
    assert(!live(c, o));
    assert(w.vector_indexes =~= b.vector_indexes);
    assert(w.search_indexes =~= b.search_indexes);
    assert(w.geo_indexes =~= b.geo_indexes);
    assert(w.versions == b.versions);
}

proof fn lemma_series_made(
    c: CatalogView,
    done: Set<Object>,
    x: Item,
    stmt: Statement,
    f: SchemaFacts,
    v: DbView,
)
    requires
        settled(c),
        next_item(c, done, x),
        stands_for(stmt, x),
        makes_indexes(f),
        v.cat == made(c, done),
        x is Series,
    ensures
        replayed(v, stmt, f, stamp_of(c.versions, key_of(object_of(x)))).cat == made(
            c,
            done.insert(object_of(x)),
        ),
{
    let o = object_of(x);
    let hlc = stamp_of(c.versions, key_of(o));
    lemma_live(c, done, o);
    lemma_one_more(c, done, o);
    let w = replayed(v, stmt, f, hlc).cat;
    let more = done.insert(o);
    let b = made(c, more);
    if let Item::Series(n, d) = x {
        let ts = c.timeseries;
        assert(series_holds(ts, n));
        assert(!c.tables.dom().contains(n));
        assert forall|m: Seq<char>| ts.dom().contains(m) implies #[trigger] made_series(
            ts,
            m,
            more,
        ) == made_series(ts, m, done) by {
            assert(series_holds(ts, m));
            if ts[m].rollup_of is None {
                lemma_same_rollups(ts[m].rollups, done, o);
            }
        }
        lemma_rollups_made(d.rollups, done, 0);
        assert(d.rollups.take(0) =~= Seq::<RollupView>::empty());
        assert(made_series(ts, n, done).rollups == Seq::<RollupView>::empty());
        assert(w.timeseries =~= b.timeseries);
    }
    assert(w.versions == b.versions);
}

/// A rollup brings its own table and is registered on its source.
proof fn lemma_rollup_registered(
    c: CatalogView,
    done: Set<Object>,
    n: Seq<char>,
    s: Seq<char>,
    bucket: i64,
)
    requires
        settled(c),
        c.timeseries.dom().contains(n),
        c.timeseries[n].rollup_of == Some(s),
        done.contains((Kind::Table, s)),
        !done.contains((Kind::Table, n)),
        next_rollup(c.timeseries[s].rollups, done, RollupView { name: n, bucket_ms: bucket }),
    ensures
        ({
            let a = made(c, done).timeseries;
            let b = made(c, done.insert((Kind::Table, n))).timeseries;
            &&& a.dom().contains(s)
            &&& a[s].rollup_of is None
            &&& a[s].series_key == c.timeseries[s].series_key
            &&& bucket_ok(bucket as int)
            &&& b == a.insert(
                n,
                TsTableView {
                    series_key: a[s].series_key,
                    retention_ms: c.timeseries[n].retention_ms,
                    ooo_window_ms: 0,
                    rollups: Seq::empty(),
                    rollup_of: Some(s),
                },
            ).insert(
                s,
                TsTableView {
                    rollups: a[s].rollups.push(RollupView { name: n, bucket_ms: bucket }),
                    ..a[s]
                },
            )
        }),
{
    let ts = c.timeseries;
    let o = (Kind::Table, n);
    let more = done.insert(o);
    let rs = ts[s].rollups;
    let r = RollupView { name: n, bucket_ms: bucket };
    let a = made(c, done).timeseries;
    let b = made(c, more).timeseries;
    assert(series_holds(ts, n));
    assert(series_holds(ts, s));
    assert(s != n);
    assert forall|m: Seq<char>| m != s && ts.dom().contains(m) implies #[trigger] made_series(
        ts,
        m,
        more,
    ) == made_series(ts, m, done) by {
        assert(series_holds(ts, m));
        if ts[m].rollup_of is None {
            lemma_same_rollups(ts[m].rollups, done, o);
        }
    }
    let j = choose|j: int|
        0 <= j < rs.len() && #[trigger] rs[j] == r && (forall|i: int|
            0 <= i < rs.len() ==> (done.contains((Kind::Table, (#[trigger] rs[i]).name)) <==> i
                < j));
    assert forall|i: int| 0 <= i < rs.len() implies (more.contains(
        (Kind::Table, (#[trigger] rs[i]).name),
    ) <==> i < j + 1) by {
        if i < j {
            assert(rs[i].name != rs[j].name);
        } else if j < i {
            assert(rs[j].name != rs[i].name);
        }
    }
    lemma_rollups_made(rs, done, j);
    lemma_rollups_made(rs, more, j + 1);
    assert(rs.take(j + 1) =~= rs.take(j).push(r));
    assert(a[s] == made_series(ts, s, done));
    assert(b =~= a.insert(
        n,
        TsTableView {
            series_key: a[s].series_key,
            retention_ms: ts[n].retention_ms,
            ooo_window_ms: 0,
            rollups: Seq::empty(),
            rollup_of: Some(s),
        },
    ).insert(s, TsTableView { rollups: a[s].rollups.push(r), ..a[s] }));
}

proof fn lemma_rollup_made(
    c: CatalogView,
    done: Set<Object>,
    x: Item,
    stmt: Statement,
    f: SchemaFacts,
    v: DbView,
)
    requires
        settled(c),
        next_item(c, done, x),
        stands_for(stmt, x),
        makes_indexes(f),
        v.cat == made(c, done),
        x is Rollup,
    ensures
        replayed(v, stmt, f, stamp_of(c.versions, key_of(object_of(x)))).cat == made(
            c,
            done.insert(object_of(x)),
        ),
{
    let o = object_of(x);
    let hlc = stamp_of(c.versions, key_of(o));
    lemma_live(c, done, o);
    lemma_one_more(c, done, o);
    let w = replayed(v, stmt, f, hlc).cat;
    let more = done.insert(o);
    let b = made(c, more);
    if let Item::Rollup(n, s, bucket, d) = x {
        lemma_rollup_registered(c, done, n, s, bucket);
        assert(series_holds(c.timeseries, n));
        assert(series_holds(c.timeseries, s));
        assert(!c.tables.dom().contains(n));
        assert(w.timeseries == b.timeseries);
    }
    assert(w.versions == b.versions);
}

/// The statement of the next object makes it.
proof fn lemma_item_made(
    c: CatalogView,
    done: Set<Object>,
    x: Item,
    stmt: Statement,
    f: SchemaFacts,
    v: DbView,
)
    requires
        settled(c),
        next_item(c, done, x),
        stands_for(stmt, x),
        makes_indexes(f),
        v.cat == made(c, done),
    ensures
        replayed(v, stmt, f, stamp_of(c.versions, key_of(object_of(x)))).cat == made(
            c,
            done.insert(object_of(x)),
        ),
{
    match x {
        Item::Database(_) => lemma_table_made(c, done, x, stmt, f, v),
        Item::Table(_, _) => lemma_table_made(c, done, x, stmt, f, v),
        Item::Series(_, _) => lemma_series_made(c, done, x, stmt, f, v),
        Item::Rollup(_, _, _, _) => lemma_rollup_made(c, done, x, stmt, f, v),
        Item::Index(_, _) => lemma_index_made(c, done, x, stmt, f, v),
        Item::Vector(_, _) => lemma_vector_made(c, done, x, stmt, f, v),
        Item::Search(_, _, _) => lemma_index_made(c, done, x, stmt, f, v),
        Item::Geo(_, _) => lemma_index_made(c, done, x, stmt, f, v),
        Item::Drop(_) => lemma_drop_made(c, done, x, stmt, f, v),
    }
}

/// Whether items come each after what it is on, and each once, from these
/// objects on.
pub open spec fn in_turn(c: CatalogView, done: Set<Object>, xs: Seq<Item>) -> bool
    decreases xs.len(),
{
    xs.len() == 0 || (in_turn(c, done, xs.drop_last()) && next_item(
        c,
        done.union(objects_of(xs.drop_last())),
        xs.last(),
    ))
}

/// Whether statements are those that items stand for, each at its stamp.
pub open spec fn stand_for(
    vs: Map<Seq<char>, SchemaVersion>,
    stmts: Seq<(Statement, Hlc)>,
    xs: Seq<Item>,
) -> bool {
    &&& stmts.len() == xs.len()
    &&& forall|i: int|
        0 <= i < xs.len() ==> stands_for((#[trigger] stmts[i]).0, xs[i]) && stmts[i].1 == stamp_of(
            vs,
            key_of(object_of(xs[i])),
        )
}

/// Statements replayed in turn make their objects.
pub proof fn lemma_items_made(
    c: CatalogView,
    done: Set<Object>,
    xs: Seq<Item>,
    stmts: Seq<(Statement, Hlc)>,
    f: SchemaFacts,
    v: DbView,
)
    requires
        settled(c),
        in_turn(c, done, xs),
        stand_for(c.versions, stmts, xs),
        makes_indexes(f),
        v.cat == made(c, done),
    ensures
        replay(v, stmts, f).cat == made(c, done.union(objects_of(xs))),
    decreases xs.len(),
{
    if xs.len() == 0 {
        assert(done.union(objects_of(xs)) =~= done);
    } else {
        let n = xs.len() - 1;
        let init = xs.drop_last();
        assert forall|i: int| 0 <= i < init.len() implies stands_for(
            (#[trigger] stmts.drop_last()[i]).0,
            init[i],
        ) && stmts.drop_last()[i].1 == stamp_of(c.versions, key_of(object_of(init[i]))) by {
            assert(stmts[i] == stmts.drop_last()[i]);
        }
        lemma_items_made(c, done, init, stmts.drop_last(), f, v);
        assert(stands_for(stmts[n].0, xs[n]));
        let before = done.union(objects_of(init));
        lemma_item_made(c, before, xs.last(), stmts.last().0, f, replay(v, stmts.drop_last(), f));
        assert(before.insert(object_of(xs.last())) =~= done.union(objects_of(xs)));
    }
}

} // verus!
