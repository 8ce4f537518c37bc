//! Schema statements lead to schemas that can be replayed.

use vstd::prelude::*;

use crate::alter::alter_kind;
use crate::alter::rename_table_step;
use crate::alter::renamed_path;
use crate::alter::table_options_step;
use crate::alter::ts_options_step;
use crate::alter::with_option;
use crate::alter::with_options;
use crate::alter::with_ts_option;
use crate::alter::with_ts_options;
use crate::alter::AlterAction;
use crate::alter::AlterKind;
use crate::catalog::defined_on;
use crate::catalog::empty_catalog;
use crate::catalog::option_views;
use crate::catalog::tombstoned;
use crate::catalog::CatalogView;
use crate::catalog::GeoIndexDef;
use crate::catalog::IndexDef;
use crate::catalog::RollupView;
use crate::catalog::SchemaVersion;
use crate::catalog::SearchIndexDef;
use crate::catalog::TableView;
use crate::catalog::TsTableView;
use crate::catalog::VectorIndexDef;
use crate::database::DbView;
use crate::ddl_database::contents_dropped;
use crate::ddl_database::drop_database_step;
use crate::ddl_database::geos_dropped;
use crate::ddl_database::indexes_dropped;
use crate::ddl_database::members;
use crate::ddl_database::searches_dropped;
use crate::ddl_database::tables_dropped;
use crate::ddl_database::vectors_dropped;
use crate::ddl_database::StampsView;
use crate::ddl_index::drop_geo_index_step;
use crate::ddl_index::drop_index_step;
use crate::ddl_index::is_multikey;
use crate::ddl_index::several_multikey;
use crate::ddl_search::drop_search_index_step;
use crate::ddl_table::deregistered;
use crate::ddl_table::drop_table_step;
use crate::ddl_table::drops_key;
use crate::ddl_table::entry_table_on;
use crate::ddl_table::table_dropped;
use crate::ddl_table::ts_dropped;
use crate::ddl_table::ts_victim;
use crate::ddl_vector::covers;
use crate::ddl_vector::drop_vector_index_step;
use crate::dispatch::SchemaFacts;
use crate::hlc::Hlc;
use crate::namespace::gidx_table_name;
use crate::namespace::split_name;
use crate::rename::after_rename;
use crate::rename::alter_step;
use crate::replay::entombed;
use crate::replay::geos_settled;
use crate::replay::indexes_settled;
use crate::replay::key_of;
use crate::replay::lemma_key_of;
use crate::replay::lemma_object_at;
use crate::replay::live;
use crate::replay::object_at;
use crate::replay::replayed;
use crate::replay::searches_settled;
use crate::replay::series_holds;
use crate::replay::series_settled;
use crate::replay::settled;
use crate::replay::tables_settled;
use crate::replay::tombstones_settled;
use crate::replay::vectors_settled;
use crate::replay::Kind;
use crate::replay::Object;
use crate::statement::Statement;
use crate::text::has_prefix;
use crate::text::lowered;

verus! {

/// A new catalog is settled.
pub proof fn a_new_catalog_is_settled()
    ensures
        settled(empty_catalog()),
{
    let c = empty_catalog();
    assert(c.users.dom() =~= Set::empty());
    assert(c.auth_roles.dom() =~= Set::empty());
}

/// One more version, of an object that alone may have come to be.
proof fn lemma_recorded(c: CatalogView, d: CatalogView, o: Object, hlc: Hlc, dropped: bool)
    requires
        tombstones_settled(c),
        d.versions == c.versions.insert(key_of(o), SchemaVersion { hlc, dropped }),
        forall|p: Object| p != o && #[trigger] live(d, p) ==> live(c, p),
        dropped ==> !live(d, o) && o != (Kind::Database, "default"@),
    ensures
        tombstones_settled(d),
{
    lemma_object_at(o);
    assert forall|k: Seq<char>| #[trigger]
        d.versions.dom().contains(k) && d.versions[k].dropped implies ({
        &&& crate::schema_sync::drop_text(k) is Some ==> object_at(k) is Some
        &&& object_at(k) matches Some(p) ==> !live(d, p) && p != (Kind::Database, "default"@)
    }) by {
        if k != key_of(o) {
            assert(c.versions.dom().contains(k) && c.versions[k].dropped);
            lemma_key_of(k);
        }
    }
}

/// Fewer objects, with the versions as they were.
proof fn lemma_unrecorded(c: CatalogView, d: CatalogView)
    requires
        tombstones_settled(c),
        d.versions == c.versions,
        forall|p: Object| #[trigger] live(d, p) ==> live(c, p),
    ensures
        tombstones_settled(d),
{
    assert forall|k: Seq<char>| #[trigger]
        d.versions.dom().contains(k) && d.versions[k].dropped implies ({
        &&& crate::schema_sync::drop_text(k) is Some ==> object_at(k) is Some
        &&& object_at(k) matches Some(p) ==> !live(d, p) && p != (Kind::Database, "default"@)
    }) by {
        assert(c.versions.dom().contains(k));
    }
}

/// Whether a table can take a new name without taking on what is recorded of
/// another object: the name is no entry table's and no time-series table's, and
/// has no tombstone.
pub open spec fn free_name(c: CatalogView, name: Seq<char>) -> bool {
    !has_prefix(split_name(name).1, "__gidx__"@) && !c.timeseries.dom().contains(name) && !entombed(
        c,
        (Kind::Table, name),
    )
}

/// Whether a column can take a new name without two vector indexes of its table
/// meeting on one column. The name has no multikey marker.
pub open spec fn free_column(c: CatalogView, table: Seq<char>, from: Seq<char>, to: Seq<char>) -> bool {
    &&& !is_multikey(to)
    &&& forall|m: Seq<char>, n: Seq<char>|
        m != n && #[trigger] vector_on(c, m, table, from) ==> !#[trigger] vector_on(
            c,
            n,
            table,
            to,
        )
}

/// Whether a vector index is on a column.
pub open spec fn vector_on(c: CatalogView, n: Seq<char>, table: Seq<char>, path: Seq<char>) -> bool {
    c.vector_indexes.dom().contains(n) && c.vector_indexes[n].table == table
        && c.vector_indexes[n].path == path
}

/// Whether a statement changes a plain schema: it creates, drops or alters no
/// entry table, no global index and no embedding one, and renames nothing onto
/// a name that is not free.
pub open spec fn plain_statement(c: CatalogView, stmt: Statement) -> bool {
    match stmt {
        Statement::AlterTable { name, action } => match action {
            AlterAction::SetOptions { .. } => true,
            AlterAction::RenameTable { new_name } => free_name(c, new_name@),
            AlterAction::RenameColumn { from, to } => free_column(c, name@, from@, to@),
        },
        Statement::AlterSearchIndex { .. } => true,
        Statement::AlterVectorIndex { .. } => true,
        Statement::CreateDatabase { .. } => true,
        Statement::DropDatabase { .. } => true,
        Statement::CreateTable(ct) => !has_prefix(split_name(ct.name@).1, "__gidx__"@),
        Statement::CreateTimeseriesTable(_) => true,
        Statement::CreateRollup(_) => true,
        Statement::DropTable { .. } => true,
        Statement::CreateIndex(ci) => !ci.global,
        Statement::DropIndex { .. } => true,
        Statement::CreateVectorIndex(ci) => !ci.embed,
        Statement::DropVectorIndex { .. } => true,
        Statement::CreateGeoIndex(_) => true,
        Statement::DropGeoIndex { .. } => true,
        Statement::CreateSearchIndex(_) => true,
        Statement::DropSearchIndex { .. } => true,
        _ => false,
    }
}

proof fn lemma_lowered(s: Seq<char>)
    ensures
        lowered(lowered(s)) == lowered(s),
{
    assert(lowered(lowered(s)) =~= lowered(s));
}

proof fn lemma_create_table_settles(v: DbView, stmt: Statement, f: SchemaFacts, hlc: Hlc)
    requires
        settled(v.cat),
        plain_statement(v.cat, stmt),
        stmt is CreateDatabase || stmt is CreateTable,
    ensures
        settled(replayed(v, stmt, f, hlc).cat),
{
    let c = v.cat;
    let d = replayed(v, stmt, f, hlc).cat;
    let o = match stmt {
        Statement::CreateDatabase { name, .. } => (Kind::Database, name@),
        Statement::CreateTable(ct) => (Kind::Table, ct.name@),
        _ => arbitrary(),
    };
    if d != c {
        lemma_recorded(c, d, o, hlc, false);
        assert forall|n: Seq<char>| #[trigger] d.timeseries.dom().contains(n) implies series_holds(
            d.timeseries,
            n,
        ) by {
            assert(series_holds(c.timeseries, n));
        }
        assert(series_settled(d));
        assert(tables_settled(d)) by {
            if let Statement::CreateTable(ct) = stmt {
                assert(crate::text::views(ct.primary_key@).len() == ct.primary_key@.len());
            }
        }
        assert forall|n: Seq<char>| #[trigger] d.vector_indexes.dom().contains(n) implies ({
            let x = d.vector_indexes[n];
            &&& !x.embed
            &&& d.tables.dom().contains(x.table)
            &&& lowered(x.metric) == x.metric
            &&& forall|m: Seq<char>| !#[trigger] covers(d.vector_indexes, n, x.table, x.path, m)
        }) by {
            assert(c.vector_indexes.dom().contains(n));
        }
        assert(vectors_settled(d));
        assert(indexes_settled(d));
        assert(searches_settled(d));
        assert(geos_settled(d));
    }
}

proof fn lemma_create_series_settles(v: DbView, stmt: Statement, f: SchemaFacts, hlc: Hlc)
    requires
        settled(v.cat),
        stmt is CreateTimeseriesTable,
    ensures
        settled(replayed(v, stmt, f, hlc).cat),
{
    let c = v.cat;
    let d = replayed(v, stmt, f, hlc).cat;
    if let Statement::CreateTimeseriesTable(ct) = stmt {
        if d != c {
            let n = ct.name@;
            lemma_recorded(c, d, (Kind::Table, n), hlc, false);
            assert forall|m: Seq<char>| #[trigger]
                d.timeseries.dom().contains(m) implies series_holds(d.timeseries, m) by {
                if c.timeseries.dom().contains(m) {
                    assert(series_holds(c.timeseries, m));
                }
            }
            assert(series_settled(d));
            assert(tables_settled(d));
            assert(vectors_settled(d));
        }
    }
}

proof fn lemma_create_rollup_settles(v: DbView, stmt: Statement, f: SchemaFacts, hlc: Hlc)
    requires
        settled(v.cat),
        stmt is CreateRollup,
    ensures
        settled(replayed(v, stmt, f, hlc).cat),
{
    let c = v.cat;
    let d = replayed(v, stmt, f, hlc).cat;
    if let Statement::CreateRollup(cr) = stmt {
        if d != c {
            let n = cr.name@;
            let s = cr.table@;
            lemma_recorded(c, d, (Kind::Table, n), hlc, false);
            if d.timeseries != c.timeseries {
                let tc = c.timeseries;
                let td = d.timeseries;
                assert(series_holds(tc, s));
                let rs = tc[s].rollups;
                assert(td[s].rollups.len() == rs.len() + 1);
                assert(td[s].rollups[rs.len() as int].name == n);
                assert forall|m: Seq<char>| #[trigger] td.dom().contains(m) implies series_holds(
                    td,
                    m,
                ) by {
                    if m == n {
                        assert(td[n].rollup_of == Some(s));
                    } else if m == s {
                        assert forall|i: int| 0 <= i < td[s].rollups.len() implies ({
                            let r = #[trigger] td[s].rollups[i];
                            td.dom().contains(r.name) && td[r.name].rollup_of == Some(s)
                                && crate::ddl_table::bucket_ok(r.bucket_ms as int)
                        }) by {
                            if i < rs.len() {
                                assert(td[s].rollups[i] == rs[i]);
                            }
                        }
                        assert forall|i: int, j: int|
                            0 <= i < j < td[s].rollups.len() implies (#[trigger] td[s].rollups[i]).name
                            != (#[trigger] td[s].rollups[j]).name by {
                            assert(td[s].rollups[i] == rs[i]);
                            if j < rs.len() {
                                assert(td[s].rollups[j] == rs[j]);
                            }
                        }
                    } else {
                        assert(series_holds(tc, m));
                        match tc[m].rollup_of {
                            Some(source) => {
                                let i = choose|i: int|
                                    0 <= i < tc[source].rollups.len() && (
                                    #[trigger] tc[source].rollups[i]).name == m;
                                assert(td[source].rollups[i].name == m);
                            },
                            None => {},
                        }
                    }
                }
            }
            assert(series_settled(d));
            assert(tables_settled(d));
            assert(vectors_settled(d));
        }
    }
}

proof fn lemma_create_index_settles(v: DbView, stmt: Statement, f: SchemaFacts, hlc: Hlc)
    requires
        settled(v.cat),
        plain_statement(v.cat, stmt),
        stmt is CreateIndex || stmt is CreateGeoIndex || stmt is CreateSearchIndex,
    ensures
        settled(replayed(v, stmt, f, hlc).cat),
{
    let c = v.cat;
    let d = replayed(v, stmt, f, hlc).cat;
    let o = match stmt {
        Statement::CreateIndex(ci) => (Kind::Index, ci.name@),
        Statement::CreateGeoIndex(ci) => (Kind::Geo, ci.name@),
        Statement::CreateSearchIndex(ci) => (Kind::Search, ci.name@),
        _ => arbitrary(),
    };
    if d != c {
        if d.versions == c.versions {
            lemma_unrecorded(c, d);
        } else {
            lemma_recorded(c, d, o, hlc, false);
        }
        assert(tables_settled(d));
        assert(series_settled(d));
        assert(vectors_settled(d));
        assert(indexes_settled(d));
        assert(searches_settled(d));
        assert(geos_settled(d));
    }
}

proof fn lemma_create_vector_settles(v: DbView, stmt: Statement, f: SchemaFacts, hlc: Hlc)
    requires
        settled(v.cat),
        plain_statement(v.cat, stmt),
        stmt is CreateVectorIndex,
    ensures
        settled(replayed(v, stmt, f, hlc).cat),
{
    let c = v.cat;
    let d = replayed(v, stmt, f, hlc).cat;
    if let Statement::CreateVectorIndex(ci) = stmt {
        let n = ci.name@;
        if d != c {
            if d.versions == c.versions {
                lemma_unrecorded(c, d);
            } else {
                lemma_recorded(c, d, (Kind::Vector, n), hlc, false);
            }
            lemma_lowered(ci.metric@);
            let w = c.vector_indexes.remove(n);
            assert forall|m: Seq<char>| m != n && #[trigger]
                d.vector_indexes.dom().contains(m) implies c.vector_indexes.dom().contains(m)
                && d.vector_indexes[m] == c.vector_indexes[m] by {}
            if d.vector_indexes.dom().contains(n) && d.vector_indexes != c.vector_indexes {
                let x = d.vector_indexes[n];
                assert forall|m: Seq<char>| !#[trigger] covers(
                    d.vector_indexes,
                    n,
                    x.table,
                    x.path,
                    m,
                ) by {
                    if c.vector_indexes.dom().contains(n) {
                        assert(!covers(w, n, ci.table@, ci.path@, m));
                    } else {
                        assert(!covers(c.vector_indexes, n, ci.table@, ci.path@, m));
                    }
                }
            }
            assert forall|m: Seq<char>| #[trigger] d.vector_indexes.dom().contains(m) implies ({
                let x = d.vector_indexes[m];
                &&& !x.embed
                &&& d.tables.dom().contains(x.table)
                &&& lowered(x.metric) == x.metric
                &&& forall|o: Seq<char>| !#[trigger] covers(d.vector_indexes, m, x.table, x.path, o)
            }) by {
                let x = d.vector_indexes[m];
                if m != n {
                    assert(c.vector_indexes.dom().contains(m));
                    assert forall|o: Seq<char>| !#[trigger] covers(
                        d.vector_indexes,
                        m,
                        x.table,
                        x.path,
                        o,
                    ) by {
                        assert(!covers(c.vector_indexes, m, x.table, x.path, o));
                        if o == n && d.vector_indexes.dom().contains(n) && d.vector_indexes
                            != c.vector_indexes {
                            let y = d.vector_indexes[n];
                            assert(!covers(d.vector_indexes, n, y.table, y.path, m));
                        }
                    }
                }
            }
            assert(vectors_settled(d));
            assert(tables_settled(d));
            assert(series_settled(d));
        }
    }
}

/// Whether a catalog has the indexes of another, or fewer.
pub open spec fn fewer_indexes(c: CatalogView, d: CatalogView) -> bool {
    &&& d.indexes.submap_of(c.indexes)
    &&& d.vector_indexes.submap_of(c.vector_indexes)
    &&& d.search_indexes.submap_of(c.search_indexes)
    &&& d.geo_indexes.submap_of(c.geo_indexes)
}

/// Vector indexes on one column each stay so where some go.
proof fn lemma_fewer_vectors(c: CatalogView, d: CatalogView)
    requires
        vectors_settled(c),
        d.vector_indexes.submap_of(c.vector_indexes),
        forall|n: Seq<char>| #[trigger]
            d.vector_indexes.dom().contains(n) ==> d.tables.dom().contains(
                d.vector_indexes[n].table,
            ),
    ensures
        vectors_settled(d),
{
    assert forall|m: Seq<char>| #[trigger] d.vector_indexes.dom().contains(m) implies ({
        let x = d.vector_indexes[m];
        &&& !x.embed
        &&& d.tables.dom().contains(x.table)
        &&& lowered(x.metric) == x.metric
        &&& forall|p: Seq<char>| !#[trigger] covers(d.vector_indexes, m, x.table, x.path, p)
    }) by {
        assert(c.vector_indexes.dom().contains(m));
        let x = d.vector_indexes[m];
        assert forall|p: Seq<char>| !#[trigger] covers(d.vector_indexes, m, x.table, x.path, p) by {
            assert(!covers(c.vector_indexes, m, x.table, x.path, p));
        }
    }
}

/// An index that goes leaves a settled catalog so.
proof fn lemma_index_gone(c: CatalogView, d: CatalogView, o: Object, hlc: Hlc)
    requires
        settled(c),
        fewer_indexes(c, d),
        d.databases == c.databases,
        d.tables == c.tables,
        d.timeseries == c.timeseries,
        d.users == c.users,
        d.auth_roles == c.auth_roles,
        d.versions == c.versions.insert(key_of(o), SchemaVersion { hlc, dropped: true }),
        !live(d, o),
        o.0 != Kind::Database,
    ensures
        settled(d),
{
    lemma_recorded(c, d, o, hlc, true);
    assert(tables_settled(d));
    assert(series_settled(d));
    assert(indexes_settled(d)) by {
        assert forall|n: Seq<char>| #[trigger] d.indexes.dom().contains(n) implies
            c.indexes.dom().contains(n) by {}
    }
    assert(searches_settled(d)) by {
        assert forall|n: Seq<char>| #[trigger] d.search_indexes.dom().contains(n) implies
            c.search_indexes.dom().contains(n) by {}
    }
    assert(geos_settled(d)) by {
        assert forall|n: Seq<char>| #[trigger] d.geo_indexes.dom().contains(n) implies
            c.geo_indexes.dom().contains(n) by {}
    }
    assert forall|n: Seq<char>| #[trigger] d.vector_indexes.dom().contains(n) implies
        d.tables.dom().contains(d.vector_indexes[n].table) by {
        assert(c.vector_indexes.dom().contains(n));
    }
    lemma_fewer_vectors(c, d);
}

/// Dropping an index of any sort leaves a settled catalog so.
proof fn lemma_drop_index_settles(v: DbView, name: Seq<char>, if_exists: bool, hlc: Hlc)
    requires
        settled(v.cat),
    ensures
        settled(drop_index_step(v.cat, name, if_exists, hlc).1),
        settled(drop_search_index_step(v.cat, name, if_exists, hlc).1),
        settled(drop_vector_index_step(v, name, if_exists, hlc).1.cat),
        settled(drop_geo_index_step(v, name, if_exists, hlc).1.cat),
{
    let c = v.cat;
    let d = drop_index_step(c, name, if_exists, hlc).1;
    if d != c {
        lemma_index_gone(c, d, (Kind::Index, name), hlc);
    }
    let d = drop_search_index_step(c, name, if_exists, hlc).1;
    if d != c {
        lemma_index_gone(c, d, (Kind::Search, name), hlc);
    }
    let d = drop_vector_index_step(v, name, if_exists, hlc).1.cat;
    if d != c {
        lemma_index_gone(c, d, (Kind::Vector, name), hlc);
    }
    let d = drop_geo_index_step(v, name, if_exists, hlc).1.cat;
    if d != c {
        lemma_index_gone(c, d, (Kind::Geo, name), hlc);
    }
}

/// Many tombstones, each of an object that is gone.
proof fn lemma_buried(c: CatalogView, d: CatalogView, hit: spec_fn(Seq<char>) -> bool, hlc: Hlc)
    requires
        tombstones_settled(c),
        d.versions == tombstoned(c.versions, hit, hlc),
        forall|p: Object| #[trigger] live(d, p) ==> live(c, p),
        forall|k: Seq<char>| #[trigger]
            hit(k) ==> (object_at(k) matches Some(o) && !live(d, o) && o.0 != Kind::Database),
    ensures
        tombstones_settled(d),
{
    assert forall|k: Seq<char>| #[trigger]
        d.versions.dom().contains(k) && d.versions[k].dropped implies ({
        &&& crate::schema_sync::drop_text(k) is Some ==> object_at(k) is Some
        &&& object_at(k) matches Some(p) ==> !live(d, p) && p != (Kind::Database, "default"@)
    }) by {
        if !hit(k) {
            assert(c.versions.dom().contains(k));
        }
    }
}

proof fn lemma_row_table_gone(c: CatalogView, name: Seq<char>, hlc: Hlc)
    requires
        settled(c),
        c.tables.dom().contains(name),
    ensures
        settled(table_dropped(c, name, hlc)),
{
    let d = table_dropped(c, name, hlc);
    let hit = |k: Seq<char>| drops_key(c, name, k);
    assert(!c.timeseries.dom().contains(name));
    assert forall|n: Seq<char>| !#[trigger] entry_table_on(c.indexes, name, n) by {}
    assert forall|k: Seq<char>| #[trigger] hit(k) implies (object_at(k) matches Some(o) && !live(
        d,
        o,
    ) && o.0 != Kind::Database) by {
        if k == "t:"@ + name {
            lemma_object_at((Kind::Table, name));
        } else if exists|n: Seq<char>| #[trigger]
            defined_on::<IndexDef>(c.indexes, name, n) && k == "i:"@ + n {
            let n = choose|n: Seq<char>| #[trigger]
                defined_on::<IndexDef>(c.indexes, name, n) && k == "i:"@ + n;
            lemma_object_at((Kind::Index, n));
        } else if exists|n: Seq<char>| #[trigger]
            defined_on::<SearchIndexDef>(c.search_indexes, name, n) && k == "s:"@ + n {
            let n = choose|n: Seq<char>| #[trigger]
                defined_on::<SearchIndexDef>(c.search_indexes, name, n) && k == "s:"@ + n;
            lemma_object_at((Kind::Search, n));
        } else if exists|n: Seq<char>| #[trigger]
            defined_on::<VectorIndexDef>(c.vector_indexes, name, n) && k == "v:"@ + n {
            let n = choose|n: Seq<char>| #[trigger]
                defined_on::<VectorIndexDef>(c.vector_indexes, name, n) && k == "v:"@ + n;
            lemma_object_at((Kind::Vector, n));
        } else if exists|n: Seq<char>| #[trigger]
            defined_on::<GeoIndexDef>(c.geo_indexes, name, n) && k == "g:"@ + n {
            let n = choose|n: Seq<char>| #[trigger]
                defined_on::<GeoIndexDef>(c.geo_indexes, name, n) && k == "g:"@ + n;
            lemma_object_at((Kind::Geo, n));
        } else {
            let n = choose|n: Seq<char>| #[trigger]
                defined_on::<IndexDef>(c.indexes, name, n) && (k == "i:"@ + n || (
                c.indexes[n].global && k == "t:"@ + gidx_table_name(n)));
            assert(c.indexes.dom().contains(n));
        }
    }
    lemma_buried(c, d, hit, hlc);
    assert(tables_settled(d));
    assert(series_settled(d));
    assert(indexes_settled(d)) by {
        assert forall|n: Seq<char>| #[trigger] d.indexes.dom().contains(n) implies
            c.indexes.dom().contains(n) by {}
    }
    assert(searches_settled(d)) by {
        assert forall|n: Seq<char>| #[trigger] d.search_indexes.dom().contains(n) implies
            c.search_indexes.dom().contains(n) by {}
    }
    assert(geos_settled(d)) by {
        assert forall|n: Seq<char>| #[trigger] d.geo_indexes.dom().contains(n) implies
            c.geo_indexes.dom().contains(n) by {}
    }
    assert forall|n: Seq<char>| #[trigger] d.vector_indexes.dom().contains(n) implies
        d.tables.dom().contains(d.vector_indexes[n].table) by {
        assert(c.vector_indexes.dom().contains(n));
    }
    lemma_fewer_vectors(c, d);
}

/// The rollups that are left when one goes hold the others, each as it was.
proof fn lemma_others_left(rs: Seq<RollupView>, name: Seq<char>)
    ensures
        ({
            let kept = rs.filter(|r: RollupView| r.name != name);
            &&& forall|i: int|
                0 <= i < kept.len() ==> (#[trigger] kept[i]).name != name && rs.contains(kept[i])
            &&& forall|r: RollupView|
                rs.contains(r) && r.name != name ==> #[trigger] kept.contains(r)
            &&& (forall|i: int, j: int|
                0 <= i < j < rs.len() ==> (#[trigger] rs[i]).name != (#[trigger] rs[j]).name)
                ==> (forall|i: int, j: int|
                0 <= i < j < kept.len() ==> (#[trigger] kept[i]).name != (
                #[trigger] kept[j]).name)
        }),
    decreases rs.len(),
{
    reveal(Seq::filter);
    let f = |r: RollupView| r.name != name;
    let kept = rs.filter(f);
    if rs.len() > 0 {
        let init = rs.drop_last();
        let last = rs[rs.len() - 1];
        lemma_others_left(init, name);
        let before = init.filter(f);
        assert(rs.last() == last);
        assert forall|r: RollupView| init.contains(r) implies rs.contains(r) by {
            let i = choose|i: int| 0 <= i < init.len() && init[i] == r;
            assert(rs[i] == r);
        }
        assert(rs.contains(last));
        assert forall|i: int| 0 <= i < kept.len() implies (#[trigger] kept[i]).name != name
            && rs.contains(kept[i]) by {
            if i < before.len() {
                assert(before[i] == kept[i]);
            }
        }
        assert forall|r: RollupView| rs.contains(r) && r.name != name implies #[trigger]
            kept.contains(r) by {
            let i = choose|i: int| 0 <= i < rs.len() && rs[i] == r;
            if i < init.len() {
                assert(init[i] == r);
                assert(before.contains(r));
                let j = choose|j: int| 0 <= j < before.len() && before[j] == r;
                assert(kept[j] == r);
            } else {
                assert(kept[before.len() as int] == r);
            }
        }
        if forall|i: int, j: int|
            0 <= i < j < rs.len() ==> (#[trigger] rs[i]).name != (#[trigger] rs[j]).name {
            assert forall|i: int, j: int| 0 <= i < j < init.len() implies (#[trigger] init[i]).name
                != (#[trigger] init[j]).name by {
                assert(rs[i].name != rs[j].name);
            }
            assert forall|i: int, j: int| 0 <= i < j < kept.len() implies (#[trigger] kept[i]).name
                != (#[trigger] kept[j]).name by {
                assert(kept[i] == before[i]);
                if j < before.len() {
                    assert(kept[j] == before[j]);
                } else {
                    assert(init.contains(before[i]));
                    let p = choose|p: int| 0 <= p < init.len() && init[p] == before[i];
                    assert(rs[p].name != rs[rs.len() - 1].name);
                }
            }
        }
    }
}

proof fn lemma_series_left(ts: Map<Seq<char>, TsTableView>, name: Seq<char>, n: Seq<char>)
    requires
        forall|m: Seq<char>| #[trigger] ts.dom().contains(m) ==> series_holds(ts, m),
        ts.dom().contains(name),
        ts.dom().contains(n),
        !ts_victim(ts, name, n),
    ensures
        ({
            let left = deregistered(ts, name);
            series_holds(
                Map::new(
                    |m: Seq<char>| left.dom().contains(m) && !ts_victim(ts, name, m),
                    |m: Seq<char>| left[m],
                ),
                n,
            )
        }),
{
    let left = deregistered(ts, name);
    let td = Map::new(
        |m: Seq<char>| left.dom().contains(m) && !ts_victim(ts, name, m),
        |m: Seq<char>| left[m],
    );
    assert(series_holds(ts, name));
    assert(series_holds(ts, n));
    match ts[n].rollup_of {
        Some(s) => {
            assert(series_holds(ts, s));
            assert(s != name);
            assert(!ts_victim(ts, name, s)) by {
                if ts_victim(ts, name, s) {
                    let i = choose|i: int|
                        0 <= i < ts[name].rollups.len() && (#[trigger] ts[name].rollups[i]).name
                            == s;
                    assert(ts[ts[name].rollups[i].name].rollup_of == Some(name));
                }
            }
            let i = choose|i: int|
                0 <= i < ts[s].rollups.len() && (#[trigger] ts[s].rollups[i]).name == n;
            lemma_others_left(ts[s].rollups, name);
            let r = ts[s].rollups[i];
            assert(ts[s].rollups.contains(r));
            if ts[name].rollup_of == Some(s) {
                let kept = ts[s].rollups.filter(|r: RollupView| r.name != name);
                assert(kept.contains(r));
                let j = choose|j: int| 0 <= j < kept.len() && kept[j] == r;
                assert(td[s].rollups[j].name == n);
            } else {
                assert(td[s].rollups[i].name == n);
            }
        },
        None => {
            let rs = ts[n].rollups;
            lemma_others_left(rs, name);
            assert forall|i: int| 0 <= i < td[n].rollups.len() implies ({
                let r = #[trigger] td[n].rollups[i];
                td.dom().contains(r.name) && td[r.name].rollup_of == Some(n)
                    && crate::ddl_table::bucket_ok(r.bucket_ms as int)
            }) by {
                let r = td[n].rollups[i];
                assert(rs.contains(r));
                let p = choose|p: int| 0 <= p < rs.len() && rs[p] == r;
                assert(ts[rs[p].name].rollup_of == Some(n));
                if ts_victim(ts, name, r.name) {
                    if r.name == name {
                        assert(ts[name].rollup_of == Some(n));
                    } else {
                        let i = choose|i: int|
                            0 <= i < ts[name].rollups.len() && (
                            #[trigger] ts[name].rollups[i]).name == r.name;
                        assert(ts[ts[name].rollups[i].name].rollup_of == Some(name));
                    }
                }
            }
        },
    }
}

proof fn lemma_series_gone(c: CatalogView, name: Seq<char>, hlc: Hlc)
    requires
        settled(c),
        c.timeseries.dom().contains(name),
    ensures
        settled(ts_dropped(c, name, hlc)),
{
    let d = ts_dropped(c, name, hlc);
    let ts = c.timeseries;
    let hit = |k: Seq<char>|
        exists|n: Seq<char>| #[trigger] ts_victim(ts, name, n) && k == "t:"@ + n;
    assert(series_holds(ts, name));
    assert forall|n: Seq<char>| #[trigger] ts_victim(ts, name, n) implies ts.dom().contains(n) by {}
    assert forall|k: Seq<char>| #[trigger] hit(k) implies (object_at(k) matches Some(o) && !live(
        d,
        o,
    ) && o.0 != Kind::Database) by {
        let n = choose|n: Seq<char>| #[trigger] ts_victim(ts, name, n) && k == "t:"@ + n;
        lemma_object_at((Kind::Table, n));
        assert(!c.tables.dom().contains(n));
    }
    lemma_buried(c, d, hit, hlc);
    assert forall|n: Seq<char>| #[trigger] d.timeseries.dom().contains(n) implies series_holds(
        d.timeseries,
        n,
    ) by {
        lemma_series_left(ts, name, n);
    }
    assert(series_settled(d));
    assert(tables_settled(d));
    assert(vectors_settled(d));
}

/// Dropping a table of either sort leaves a settled catalog so.
proof fn lemma_drop_table_settles(v: DbView, name: Seq<char>, if_exists: bool, hlc: Hlc)
    requires
        settled(v.cat),
    ensures
        settled(drop_table_step(v, name, if_exists, hlc).1.cat),
{
    let c = v.cat;
    let d = drop_table_step(v, name, if_exists, hlc).1.cat;
    if d != c {
        if c.timeseries.dom().contains(name) {
            lemma_series_gone(c, name, hlc);
        } else if c.tables.dom().contains(name) {
            lemma_row_table_gone(c, name, hlc);
        } else {
            lemma_index_gone(c, d, (Kind::Table, name), hlc);
        }
    }
}

proof fn lemma_contents_settle(
    v: DbView,
    names: Seq<Seq<char>>,
    at: StampsView,
    from: int,
)
    requires
        settled(v.cat),
    ensures
        settled(tables_dropped(v, names, at, from).cat),
        settled(vectors_dropped(v, names, at, from).cat),
        settled(searches_dropped(v.cat, names, at, from)),
        settled(indexes_dropped(v.cat, names, at, from)),
        settled(geos_dropped(v, names, at, from).cat),
    decreases names.len(),
{
    if names.len() > 0 {
        let init = names.drop_last();
        let hlc = at.at(from + names.len() - 1);
        lemma_contents_settle(v, init, at, from);
        lemma_drop_table_settles(tables_dropped(v, init, at, from), names.last(), true, hlc);
        lemma_drop_index_settles(vectors_dropped(v, init, at, from), names.last(), true, hlc);
        let s = DbView { cat: searches_dropped(v.cat, init, at, from), ..v };
        lemma_drop_index_settles(s, names.last(), true, hlc);
        let i = DbView { cat: indexes_dropped(v.cat, init, at, from), ..v };
        lemma_drop_index_settles(i, names.last(), true, hlc);
        lemma_drop_index_settles(geos_dropped(v, init, at, from), names.last(), true, hlc);
    }
}

/// Dropping a database leaves a settled catalog so.
proof fn lemma_drop_database_settles(v: DbView, name: Seq<char>, if_exists: bool, at: StampsView)
    requires
        settled(v.cat),
    ensures
        settled(drop_database_step(v, name, if_exists, at).1.cat),
{
    let c = v.cat;
    let d = drop_database_step(v, name, if_exists, at).1.cat;
    if name != "default"@ && d != c {
        let w = if c.databases.contains(name) {
            let ts = members(c.tables.dom(), name);
            let t = tables_dropped(v, ts, at, 0);
            lemma_contents_settle(v, ts, at, 0);
            let ss = members(t.cat.timeseries.dom(), name);
            let n = ts.len() as int;
            let a = tables_dropped(t, ss, at, n);
            lemma_contents_settle(t, ss, at, n);
            let vs = members(a.cat.vector_indexes.dom(), name);
            let n = n + ss.len();
            let b = vectors_dropped(a, vs, at, n);
            lemma_contents_settle(a, vs, at, n);
            let fs = members(b.cat.search_indexes.dom(), name);
            let n = n + vs.len();
            let s = DbView { cat: searches_dropped(b.cat, fs, at, n), ..b };
            lemma_contents_settle(b, fs, at, n);
            let is = members(s.cat.indexes.dom(), name);
            let n = n + fs.len();
            let e = DbView { cat: indexes_dropped(s.cat, is, at, n), ..b };
            lemma_contents_settle(s, is, at, n);
            lemma_contents_settle(e, members(e.cat.geo_indexes.dom(), name), at, n + is.len());
            contents_dropped(v, name, at).cat
        } else {
            c
        };
        assert(settled(w));
        lemma_recorded(w, d, (Kind::Database, name), at.own, true);
        assert(tables_settled(d));
        assert(series_settled(d));
        assert(indexes_settled(d));
        assert(searches_settled(d));
        assert(geos_settled(d));
        lemma_fewer_vectors(w, d);
    }
}

proof fn lemma_options_keep(table: Seq<char>, def: TableView, os: Seq<(Seq<char>, Seq<char>)>)
    ensures
        with_options(table, def, os).1.primary_key == def.primary_key,
        with_options(table, def, os).1.memory == def.memory,
    decreases os.len(),
{
    if os.len() > 0 {
        if let Ok(next) = with_option(table, def, os[0]) {
            lemma_options_keep(table, next, os.drop_first());
        }
    }
}

proof fn lemma_ts_options_keep(def: TsTableView, os: Seq<(Seq<char>, Seq<char>)>)
    ensures
        with_ts_options(def, os).1.series_key == def.series_key,
        with_ts_options(def, os).1.rollups == def.rollups,
        with_ts_options(def, os).1.rollup_of == def.rollup_of,
    decreases os.len(),
{
    if os.len() > 0 {
        if let Ok(next) = with_ts_option(def, os[0]) {
            lemma_ts_options_keep(next, os.drop_first());
        }
    }
}

proof fn lemma_set_options_settles(v: DbView, table: Seq<char>, os: Seq<(Seq<char>, Seq<char>)>)
    requires
        settled(v.cat),
        v.cat.tables.dom().contains(table),
    ensures
        settled(table_options_step(v, table, os).1.cat),
{
    let c = v.cat;
    let d = table_options_step(v, table, os).1.cat;
    lemma_options_keep(table, c.tables[table], os);
    lemma_unrecorded(c, d);
    assert(d.tables.dom() =~= c.tables.dom());
    assert(tables_settled(d));
    assert(series_settled(d));
    assert(indexes_settled(d));
    assert(searches_settled(d));
    assert(geos_settled(d));
    assert forall|n: Seq<char>| #[trigger] d.vector_indexes.dom().contains(n) implies
        d.tables.dom().contains(d.vector_indexes[n].table) by {
        assert(c.vector_indexes.dom().contains(n));
    }
    lemma_fewer_vectors(c, d);
}

proof fn lemma_set_ts_options_settles(v: DbView, table: Seq<char>, os: Seq<(Seq<char>, Seq<char>)>)
    requires
        settled(v.cat),
        v.cat.timeseries.dom().contains(table),
    ensures
        settled(ts_options_step(v, table, os).1.cat),
{
    let c = v.cat;
    let d = ts_options_step(v, table, os).1.cat;
    lemma_ts_options_keep(c.timeseries[table], os);
    lemma_unrecorded(c, d);
    assert(d.timeseries.dom() =~= c.timeseries.dom());
    assert forall|n: Seq<char>| #[trigger] d.timeseries.dom().contains(n) implies series_holds(
        d.timeseries,
        n,
    ) by {
        assert(series_holds(c.timeseries, n));
        if let Some(s) = c.timeseries[n].rollup_of {
            let i = choose|i: int|
                0 <= i < c.timeseries[s].rollups.len() && (
                #[trigger] c.timeseries[s].rollups[i]).name == n;
            assert(d.timeseries[s].rollups[i].name == n);
        }
    }
    assert(series_settled(d));
    assert(tables_settled(d));
    assert(vectors_settled(d));
}

proof fn lemma_rename_table_settles(v: DbView, from: Seq<char>, to: Seq<char>)
    requires
        settled(v.cat),
        v.cat.tables.dom().contains(from),
        free_name(v.cat, to),
    ensures
        settled(rename_table_step(v, from, to).1.cat),
{
    let c = v.cat;
    let d = rename_table_step(v, from, to).1.cat;
    if !c.tables.dom().contains(to) {
        lemma_object_at((Kind::Table, to));
        assert(tombstones_settled(d)) by {
            assert forall|k: Seq<char>| #[trigger]
                d.versions.dom().contains(k) && d.versions[k].dropped implies ({
                &&& crate::schema_sync::drop_text(k) is Some ==> object_at(k) is Some
                &&& object_at(k) matches Some(p) ==> !live(d, p) && p != (
                    Kind::Database,
                    "default"@,
                )
            }) by {
                assert(c.versions.dom().contains(k));
                lemma_key_of(k);
                if let Some(p) = object_at(k) {
                    assert(!live(c, p));
                    assert(p != (Kind::Table, to));
                }
            }
        }
        assert(tables_settled(d));
        assert(series_settled(d));
        assert(indexes_settled(d)) by {
            assert forall|n: Seq<char>| #[trigger] d.indexes.dom().contains(n) implies
                c.indexes.dom().contains(n) by {}
        }
        assert(searches_settled(d)) by {
            assert forall|n: Seq<char>| #[trigger] d.search_indexes.dom().contains(n) implies
                c.search_indexes.dom().contains(n) by {}
        }
        assert(geos_settled(d)) by {
            assert forall|n: Seq<char>| #[trigger] d.geo_indexes.dom().contains(n) implies
                c.geo_indexes.dom().contains(n) by {}
        }
        assert forall|n: Seq<char>| #[trigger] d.vector_indexes.dom().contains(n) implies ({
            let x = d.vector_indexes[n];
            &&& !x.embed
            &&& d.tables.dom().contains(x.table)
            &&& lowered(x.metric) == x.metric
            &&& forall|p: Seq<char>| !#[trigger] covers(d.vector_indexes, n, x.table, x.path, p)
        }) by {
            assert(c.vector_indexes.dom().contains(n));
            let x = d.vector_indexes[n];
            let y = c.vector_indexes[n];
            assert forall|p: Seq<char>| !#[trigger] covers(
                d.vector_indexes,
                n,
                x.table,
                x.path,
                p,
            ) by {
                assert(!covers(c.vector_indexes, n, y.table, y.path, p));
                if c.vector_indexes.dom().contains(p) {
                    assert(c.tables.dom().contains(c.vector_indexes[p].table));
                }
            }
        }
        assert(vectors_settled(d));
    }
}

/// A path stays with or without its multikey marker when a column is renamed.
proof fn lemma_marker_stays(p: Seq<char>, from: Seq<char>, to: Seq<char>)
    requires
        !is_multikey(to),
    ensures
        is_multikey(renamed_path(p, from, to)) ==> is_multikey(p),
{
    reveal_strlit("[]");
    if p == from + "[]"@ {
        let n = p.len() as int;
        assert(p[n - 2] == '[' && p[n - 1] == ']');
        assert(p.skip(n - 2) =~= "[]"@);
    }
}

proof fn lemma_rename_column_settles(v: DbView, table: Seq<char>, from: Seq<char>, to: Seq<char>)
    requires
        settled(v.cat),
        v.cat.tables.dom().contains(table),
        free_column(v.cat, table, from, to),
    ensures
        settled(after_rename(v, table, from, to).cat),
{
    let c = v.cat;
    let d = after_rename(v, table, from, to).cat;
    assert(d.tables.dom() =~= c.tables.dom());
    lemma_unrecorded(c, d);
    assert(tables_settled(d));
    assert(series_settled(d));
    assert forall|n: Seq<char>| #[trigger] d.indexes.dom().contains(n) implies !d.indexes[n].global
        && d.tables.dom().contains(d.indexes[n].table) && !d.tables[d.indexes[n].table].memory
        && !several_multikey(d.indexes[n].paths) by {
        assert(c.indexes.dom().contains(n));
        let x = c.indexes[n].paths;
        let y = d.indexes[n].paths;
        if several_multikey(y) {
            let (i, j) = choose|i: int, j: int|
                0 <= i < j < y.len() && is_multikey(#[trigger] y[i]) && is_multikey(
                    #[trigger] y[j],
                );
            lemma_marker_stays(x[i], from, to);
            lemma_marker_stays(x[j], from, to);
            assert(is_multikey(x[i]) && is_multikey(x[j]));
        }
    }
    assert(indexes_settled(d));
    assert(searches_settled(d)) by {
        assert forall|n: Seq<char>| #[trigger] d.search_indexes.dom().contains(n) implies
            c.search_indexes.dom().contains(n) by {}
    }
    assert(geos_settled(d)) by {
        assert forall|n: Seq<char>| #[trigger] d.geo_indexes.dom().contains(n) implies
            c.geo_indexes.dom().contains(n) by {}
    }
    assert forall|n: Seq<char>| #[trigger] d.vector_indexes.dom().contains(n) implies ({
        let x = d.vector_indexes[n];
        &&& !x.embed
        &&& d.tables.dom().contains(x.table)
        &&& lowered(x.metric) == x.metric
        &&& forall|p: Seq<char>| !#[trigger] covers(d.vector_indexes, n, x.table, x.path, p)
    }) by {
        assert(c.vector_indexes.dom().contains(n));
        let x = d.vector_indexes[n];
        let y = c.vector_indexes[n];
        assert forall|p: Seq<char>| !#[trigger] covers(d.vector_indexes, n, x.table, x.path, p) by {
            assert(!covers(c.vector_indexes, n, y.table, y.path, p));
            if p != n && vector_on(c, n, table, from) {
                assert(!vector_on(c, p, table, to));
            }
            if p != n && vector_on(c, p, table, from) {
                assert(!vector_on(c, n, table, to));
            }
        }
    }
    assert(vectors_settled(d));
}

proof fn lemma_alter_index_settles(v: DbView, stmt: Statement, f: SchemaFacts, hlc: Hlc)
    requires
        settled(v.cat),
        stmt is AlterSearchIndex || stmt is AlterVectorIndex,
    ensures
        settled(replayed(v, stmt, f, hlc).cat),
{
    let c = v.cat;
    let d = replayed(v, stmt, f, hlc).cat;
    let o = match stmt {
        Statement::AlterSearchIndex { name, .. } => (Kind::Search, name@),
        Statement::AlterVectorIndex { name, .. } => (Kind::Vector, name@),
        _ => arbitrary(),
    };
    if d != c {
        lemma_recorded(c, d, o, hlc, false);
        assert(tables_settled(d));
        assert(series_settled(d));
        assert(indexes_settled(d));
        assert(searches_settled(d));
        assert(geos_settled(d));
        assert forall|n: Seq<char>| #[trigger] d.vector_indexes.dom().contains(n) implies ({
            let x = d.vector_indexes[n];
            &&& !x.embed
            &&& d.tables.dom().contains(x.table)
            &&& lowered(x.metric) == x.metric
            &&& forall|p: Seq<char>| !#[trigger] covers(d.vector_indexes, n, x.table, x.path, p)
        }) by {
            assert(c.vector_indexes.dom().contains(n));
            let x = d.vector_indexes[n];
            assert forall|p: Seq<char>| !#[trigger] covers(
                d.vector_indexes,
                n,
                x.table,
                x.path,
                p,
            ) by {
                assert(!covers(c.vector_indexes, n, x.table, x.path, p));
            }
        }
        assert(vectors_settled(d));
    }
}

/// The database that a schema statement leaves, an `ALTER TABLE` among them.
pub open spec fn changed(v: DbView, stmt: Statement, f: SchemaFacts, hlc: Hlc) -> DbView {
    match stmt {
        Statement::AlterTable { name, action } => alter_step(v, name@, action).1,
        _ => replayed(v, stmt, f, hlc),
    }
}

/// Every schema that statements on plain objects lead to can be replayed: from
/// a settled catalog a create, a drop, an alter or a rename leads to a settled
/// one, whether or not it is refused.
pub proof fn schema_changes_keep_a_catalog_settled(
    v: DbView,
    stmt: Statement,
    f: SchemaFacts,
    hlc: Hlc,
)
    requires
        settled(v.cat),
        plain_statement(v.cat, stmt),
    ensures
        settled(changed(v, stmt, f, hlc).cat),
{
    match stmt {
        Statement::CreateDatabase { .. } => lemma_create_table_settles(v, stmt, f, hlc),
        Statement::CreateTable(_) => lemma_create_table_settles(v, stmt, f, hlc),
        Statement::CreateTimeseriesTable(_) => lemma_create_series_settles(v, stmt, f, hlc),
        Statement::CreateRollup(_) => lemma_create_rollup_settles(v, stmt, f, hlc),
        Statement::CreateIndex(_) => lemma_create_index_settles(v, stmt, f, hlc),
        Statement::CreateGeoIndex(_) => lemma_create_index_settles(v, stmt, f, hlc),
        Statement::CreateSearchIndex(_) => lemma_create_index_settles(v, stmt, f, hlc),
        Statement::CreateVectorIndex(_) => lemma_create_vector_settles(v, stmt, f, hlc),
        Statement::DropTable { name, if_exists } => lemma_drop_table_settles(
            v,
            name@,
            if_exists,
            hlc,
        ),
        Statement::DropIndex { name, if_exists } => lemma_drop_index_settles(
            v,
            name@,
            if_exists,
            hlc,
        ),
        Statement::DropVectorIndex { name, if_exists } => lemma_drop_index_settles(
            v,
            name@,
            if_exists,
            hlc,
        ),
        Statement::DropGeoIndex { name, if_exists } => lemma_drop_index_settles(
            v,
            name@,
            if_exists,
            hlc,
        ),
        Statement::DropSearchIndex { name, if_exists } => lemma_drop_index_settles(
            v,
            name@,
            if_exists,
            hlc,
        ),
        Statement::DropDatabase { name, if_exists } => lemma_drop_database_settles(
            v,
            name@,
            if_exists,
            StampsView { own: hlc, fresh: Seq::empty() },
        ),
        Statement::AlterSearchIndex { .. } => lemma_alter_index_settles(v, stmt, f, hlc),
        Statement::AlterVectorIndex { .. } => lemma_alter_index_settles(v, stmt, f, hlc),
        Statement::AlterTable { name, action } => match alter_kind(v.cat, name@, action) {
            Ok(AlterKind::SetTimeseriesOptions) => lemma_set_ts_options_settles(
                v,
                name@,
                option_views(action->options@),
            ),
            Ok(AlterKind::SetTableOptions) => lemma_set_options_settles(
                v,
                name@,
                option_views(action->options@),
            ),
            Ok(AlterKind::RenameTable) => lemma_rename_table_settles(v, name@, action->new_name@),
            Ok(AlterKind::RenameColumn) => lemma_rename_column_settles(
                v,
                name@,
                action->from@,
                action->to@,
            ),
            Err(_) => {},
        },
        _ => {},
    }
}

/// The database that a run of schema statements leaves, each at its stamp.
pub open spec fn built(v: DbView, stmts: Seq<(Statement, Hlc)>, f: SchemaFacts) -> DbView
    decreases stmts.len(),
{
    if stmts.len() == 0 {
        v
    } else {
        changed(built(v, stmts.drop_last(), f), stmts.last().0, f, stmts.last().1)
    }
}

/// Whether every statement of a run is on plain objects where it comes.
pub open spec fn all_plain(v: DbView, stmts: Seq<(Statement, Hlc)>, f: SchemaFacts) -> bool
    decreases stmts.len(),
{
    stmts.len() == 0 || (all_plain(v, stmts.drop_last(), f) && plain_statement(
        built(v, stmts.drop_last(), f).cat,
        stmts.last().0,
    ))
}

/// A database that was built from nothing by statements on plain objects can be
/// replayed.
pub proof fn what_schema_changes_build_is_settled(
    v: DbView,
    stmts: Seq<(Statement, Hlc)>,
    f: SchemaFacts,
)
    requires
        v.cat == empty_catalog(),
        all_plain(v, stmts, f),
    ensures
        settled(built(v, stmts, f).cat),
    decreases stmts.len(),
{
    if stmts.len() == 0 {
        a_new_catalog_is_settled();
    } else {
        let init = stmts.drop_last();
        what_schema_changes_build_is_settled(v, init, f);
        schema_changes_keep_a_catalog_settled(
            built(v, init, f),
            stmts.last().0,
            f,
            stmts.last().1,
        );
    }
}

} // verus!
