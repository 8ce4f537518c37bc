//! What holds of schema statements together: which of two wins, what a drop
//! leaves behind, and that nodes agree however the statements reach them.

use vstd::prelude::*;

use crate::catalog::advances;
use crate::catalog::defined_on;
use crate::catalog::CatalogView;
use crate::catalog::GeoIndexDef;
use crate::catalog::IndexDef;
use crate::catalog::SchemaVersion;
use crate::catalog::SearchIndexDef;
use crate::catalog::TsTableView;
use crate::catalog::VectorIndexDef;
use crate::database::DbView;
use crate::database::DdlOutcome;
use crate::ddl_database::create_database_step;
use crate::ddl_database::drop_database_step;
use crate::ddl_database::StampsView;
use crate::ddl_index::create_geo_index_step;
use crate::ddl_index::create_index_step;
use crate::ddl_index::drop_geo_index_step;
use crate::ddl_index::drop_index_step;
use crate::ddl_search::create_search_index_step;
use crate::ddl_search::drop_search_index_step;
use crate::ddl_search::CreateSearchIndex;
use crate::ddl_table::asked_table;
use crate::ddl_table::create_rollup_step;
use crate::ddl_table::create_table_step;
use crate::ddl_table::create_timeseries_step;
use crate::ddl_table::drop_table_step;
use crate::ddl_table::drops_key;
use crate::ddl_table::table_dropped;
use crate::ddl_table::ts_victim;
use crate::ddl_table::CreateTable;
use crate::ddl_vector::create_vector_index_step;
use crate::ddl_vector::drop_vector_index_step;
use crate::ddl_vector::CreateVectorIndex;
use crate::ddl_vector::VectorFacts;
use crate::error::ErrorView;
use crate::hlc::hlc_lt;
use crate::hlc::Hlc;

verus! {

/// A table statement no newer than the table's last change leaves everything
/// as it was.
pub proof fn older_table_statement_changes_nothing(
    v: DbView,
    ct: CreateTable,
    name: Seq<char>,
    if_exists: bool,
    hlc: Hlc,
)
    requires
        !advances(v.cat.versions, "t:"@ + name, hlc),
        ct.name@ == name,
    ensures
        create_table_step(v.cat, ct, hlc).1 == v.cat,
        drop_table_step(v, name, if_exists, hlc) == (
            Ok::<DdlOutcome, ErrorView>(DdlOutcome::Stale),
            v,
        ),
{
}

/// An index statement no newer than the index's last change leaves everything
/// as it was, for every sort of index.
pub proof fn older_index_statement_changes_nothing(
    v: DbView,
    name: Seq<char>,
    table: Seq<char>,
    paths: Seq<Seq<char>>,
    path: Seq<char>,
    flag: bool,
    global: bool,
    ready: bool,
    hlc: Hlc,
    fresh: Seq<Hlc>,
)
    ensures
        !advances(v.cat.versions, "i:"@ + name, hlc) ==> create_index_step(
            v,
            name,
            table,
            paths,
            flag,
            global,
            ready,
            hlc,
        ).1 == v && drop_index_step(v.cat, name, flag, hlc).1 == v.cat,
        !advances(v.cat.versions, "g:"@ + name, hlc) ==> create_geo_index_step(
            v,
            name,
            table,
            path,
            flag,
            hlc,
        ).1 == v && drop_geo_index_step(v, name, flag, hlc).1 == v,
        !advances(v.cat.versions, "v:"@ + name, hlc) ==> drop_vector_index_step(
            v,
            name,
            flag,
            hlc,
        ).1 == v,
        !advances(v.cat.versions, "s:"@ + name, hlc) ==> drop_search_index_step(
            v.cat,
            name,
            flag,
            hlc,
        ).1 == v.cat,
        !advances(v.cat.versions, "d:"@ + name, hlc) ==> create_database_step(
            v.cat,
            name,
            flag,
            global,
            hlc,
        ).1 == v.cat && drop_database_step(
            v,
            name,
            flag,
            StampsView { own: hlc, fresh },
        ).1 == v,
{
}

/// A `CREATE` of a vector or search index no newer than the index's last
/// change leaves the catalog as it was.
pub proof fn older_declared_index_changes_nothing(
    v: DbView,
    cv: CreateVectorIndex,
    facts: VectorFacts,
    cs: CreateSearchIndex,
    work: Result<(), ErrorView>,
    hlc: Hlc,
)
    ensures
        !advances(v.cat.versions, "v:"@ + cv.name@, hlc) ==> create_vector_index_step(
            v,
            cv,
            facts,
            hlc,
        ).1 == v,
        !advances(v.cat.versions, "s:"@ + cs.name@, hlc) ==> create_search_index_step(
            v.cat,
            cs,
            work,
            hlc,
        ).1 == v.cat,
{
}

/// A statement that takes effect records its stamp on its own table: as a
/// live version for a create, as a tombstone for a drop.
pub proof fn effective_statement_records_its_stamp(
    v: DbView,
    ct: CreateTable,
    name: Seq<char>,
    if_exists: bool,
    hlc: Hlc,
)
    requires
        ct.name@ == name,
        advances(v.cat.versions, "t:"@ + name, hlc),
    ensures
        create_table_step(v.cat, ct, hlc).0 is Ok ==> create_table_step(
            v.cat,
            ct,
            hlc,
        ).1.versions.contains_pair("t:"@ + name, SchemaVersion { hlc, dropped: false }),
        drop_table_step(v, name, if_exists, hlc).0 is Ok ==> drop_table_step(
            v,
            name,
            if_exists,
            hlc,
        ).1.cat.versions.contains_pair("t:"@ + name, SchemaVersion { hlc, dropped: true }),
{
    let w = drop_table_step(v, name, if_exists, hlc).1.cat;
    if v.cat.timeseries.dom().contains(name) {
        assert(ts_victim(v.cat.timeseries, name, name));
        assert(w.versions.dom().contains("t:"@ + name));
    } else if v.cat.tables.dom().contains(name) {
        assert(drops_key(v.cat, name, "t:"@ + name));
        assert(w.versions.dom().contains("t:"@ + name));
    }
}

/// No name is both an ordinary table and a time-series table.
pub open spec fn one_sort_of_table(v: CatalogView) -> bool {
    forall|n: Seq<char>|
        !(#[trigger] v.tables.dom().contains(n) && v.timeseries.dom().contains(n))
}

/// Creating and dropping tables of either sort never makes one name both an
/// ordinary and a time-series table.
pub proof fn tables_stay_of_one_sort(
    v: DbView,
    ct: CreateTable,
    name: Seq<char>,
    def: TsTableView,
    source: Seq<char>,
    bucket_ms: i64,
    retention_ms: Option<i64>,
    flag: bool,
    hlc: Hlc,
)
    requires
        one_sort_of_table(v.cat),
    ensures
        one_sort_of_table(create_table_step(v.cat, ct, hlc).1),
        one_sort_of_table(create_timeseries_step(v.cat, name, def, flag, hlc).1),
        one_sort_of_table(
            create_rollup_step(v.cat, name, source, bucket_ms, retention_ms, flag, hlc).1,
        ),
        one_sort_of_table(drop_table_step(v, name, flag, hlc).1.cat),
{
    let r = create_rollup_step(v.cat, name, source, bucket_ms, retention_ms, flag, hlc).1;
    assert forall|n: Seq<char>|
        !(#[trigger] r.tables.dom().contains(n) && r.timeseries.dom().contains(n)) by {
        assert(!(v.cat.tables.dom().contains(n) && v.cat.timeseries.dom().contains(n)));
    }
    let d = drop_table_step(v, name, flag, hlc).1.cat;
    assert forall|n: Seq<char>|
        !(#[trigger] d.tables.dom().contains(n) && d.timeseries.dom().contains(n)) by {
        assert(!(v.cat.tables.dom().contains(n) && v.cat.timeseries.dom().contains(n)));
    }
}

/// A drop beats a stale recreate: after `DROP TABLE` at `dropped`, a `CREATE
/// TABLE` no newer than the drop does not bring the table back.
pub proof fn drop_tombstone_beats_stale_create(
    v: DbView,
    ct: CreateTable,
    if_exists: bool,
    dropped: Hlc,
    created: Hlc,
)
    requires
        advances(v.cat.versions, "t:"@ + ct.name@, dropped),
        drop_table_step(v, ct.name@, if_exists, dropped).0 is Ok,
        !hlc_lt(dropped, created),
        one_sort_of_table(v.cat),
    ensures
        ({
            let after = drop_table_step(v, ct.name@, if_exists, dropped).1.cat;
            &&& !after.tables.dom().contains(ct.name@)
            &&& !after.timeseries.dom().contains(ct.name@)
            &&& create_table_step(after, ct, created).1 == after
        }),
{
    let name = ct.name@;
    effective_statement_records_its_stamp(v, ct, name, if_exists, dropped);
    let after = drop_table_step(v, name, if_exists, dropped).1.cat;
    if v.cat.timeseries.dom().contains(name) {
        assert(ts_victim(v.cat.timeseries, name, name));
        assert(!after.timeseries.dom().contains(name));
    }
}

/// A newer create wins over the tombstone: after `DROP TABLE`, a `CREATE
/// TABLE` with a later stamp makes the table as it asks for.
pub proof fn newer_create_wins_over_tombstone(
    v: DbView,
    ct: CreateTable,
    if_exists: bool,
    dropped: Hlc,
    created: Hlc,
)
    requires
        advances(v.cat.versions, "t:"@ + ct.name@, dropped),
        drop_table_step(v, ct.name@, if_exists, dropped).0 is Ok,
        hlc_lt(dropped, created),
        create_table_step(
            drop_table_step(v, ct.name@, if_exists, dropped).1.cat,
            ct,
            created,
        ).0 is Ok,
        one_sort_of_table(v.cat),
    ensures
        ({
            let after = drop_table_step(v, ct.name@, if_exists, dropped).1.cat;
            create_table_step(after, ct, created).1.tables.contains_pair(
                ct.name@,
                asked_table(ct),
            )
        }),
{
    let name = ct.name@;
    effective_statement_records_its_stamp(v, ct, name, if_exists, dropped);
    let after = drop_table_step(v, name, if_exists, dropped).1.cat;
    if v.cat.timeseries.dom().contains(name) {
        assert(ts_victim(v.cat.timeseries, name, name));
        assert(!after.timeseries.dom().contains(name));
    }
    assert(!after.tables.dom().contains(name));
}

/// A stale drop does not remove a newer table: after `CREATE TABLE` at
/// `created` took effect, a `DROP TABLE` no newer leaves it in place.
pub proof fn stale_drop_keeps_newer_table(
    v: DbView,
    ct: CreateTable,
    if_exists: bool,
    created: Hlc,
    dropped: Hlc,
)
    requires
        advances(v.cat.versions, "t:"@ + ct.name@, created),
        create_table_step(v.cat, ct, created).0 is Ok,
        !hlc_lt(created, dropped),
    ensures
        ({
            let after = DbView { cat: create_table_step(v.cat, ct, created).1, ..v };
            drop_table_step(after, ct.name@, if_exists, dropped).1 == after
        }),
{
    effective_statement_records_its_stamp(v, ct, ct.name@, if_exists, created);
}

/// Creates and drops converge: two nodes that get the same `CREATE TABLE IF
/// NOT EXISTS` and `DROP TABLE IF EXISTS` in different orders agree on
/// whether the table exists and at which version.
pub proof fn create_and_drop_converge(v: DbView, ct: CreateTable, created: Hlc, dropped: Hlc)
    requires
        ct.if_not_exists,
        created != dropped,
        advances(v.cat.versions, "t:"@ + ct.name@, created),
        advances(v.cat.versions, "t:"@ + ct.name@, dropped),
        create_table_step(v.cat, ct, created).0 is Ok,
        !v.cat.timeseries.dom().contains(ct.name@),
    ensures
        ({
            let name = ct.name@;
            let key = "t:"@ + name;
            let one = drop_table_step(
                DbView { cat: create_table_step(v.cat, ct, created).1, ..v },
                name,
                true,
                dropped,
            ).1.cat;
            let other = create_table_step(
                drop_table_step(v, name, true, dropped).1.cat,
                ct,
                created,
            ).1;
            &&& one.tables.dom().contains(name) == other.tables.dom().contains(name)
            &&& one.tables.dom().contains(name) == hlc_lt(dropped, created)
            &&& one.versions.dom().contains(key) && other.versions.dom().contains(key)
            &&& one.versions[key] == other.versions[key]
        }),
{
    let name = ct.name@;
    let key = "t:"@ + name;
    let mid = DbView { cat: create_table_step(v.cat, ct, created).1, ..v };
    let dead = drop_table_step(v, name, true, dropped).1;
    effective_statement_records_its_stamp(v, ct, name, true, created);
    effective_statement_records_its_stamp(v, ct, name, true, dropped);
    assert(mid.cat.tables.dom().contains(name));
    assert(!dead.cat.tables.dom().contains(name));
    assert(!dead.cat.timeseries.dom().contains(name));
    if hlc_lt(created, dropped) {
        effective_statement_records_its_stamp(mid, ct, name, true, dropped);
        let one = drop_table_step(mid, name, true, dropped).1.cat;
        assert(!one.tables.dom().contains(name));
    } else {
        effective_statement_records_its_stamp(dead, ct, name, true, created);
        assert(drop_table_step(mid, name, true, dropped).1 == mid);
        assert(create_table_step(dead.cat, ct, created).1.tables.dom().contains(name));
    }
}

/// A dropped table leaves no orphan: no index of any sort is on it any more,
/// and each that was there has a tombstone at the drop's stamp.
pub proof fn drop_leaves_no_index_behind(v: DbView, name: Seq<char>, if_exists: bool, hlc: Hlc)
    requires
        advances(v.cat.versions, "t:"@ + name, hlc),
        v.cat.tables.dom().contains(name),
        !v.cat.timeseries.dom().contains(name),
    ensures
        ({
            let w = drop_table_step(v, name, if_exists, hlc).1.cat;
            let gone = SchemaVersion { hlc, dropped: true };
            &&& forall|n: Seq<char>| !#[trigger] defined_on::<IndexDef>(w.indexes, name, n)
            &&& forall|n: Seq<char>|
                !#[trigger] defined_on::<SearchIndexDef>(w.search_indexes, name, n)
            &&& forall|n: Seq<char>|
                !#[trigger] defined_on::<VectorIndexDef>(w.vector_indexes, name, n)
            &&& forall|n: Seq<char>| !#[trigger] defined_on::<GeoIndexDef>(w.geo_indexes, name, n)
            &&& forall|n: Seq<char>| #[trigger]
                defined_on::<IndexDef>(v.cat.indexes, name, n) ==> w.versions.contains_pair(
                    "i:"@ + n,
                    gone,
                )
            &&& forall|n: Seq<char>| #[trigger]
                defined_on::<SearchIndexDef>(v.cat.search_indexes, name, n)
                    ==> w.versions.contains_pair("s:"@ + n, gone)
            &&& forall|n: Seq<char>| #[trigger]
                defined_on::<VectorIndexDef>(v.cat.vector_indexes, name, n)
                    ==> w.versions.contains_pair("v:"@ + n, gone)
            &&& forall|n: Seq<char>| #[trigger]
                defined_on::<GeoIndexDef>(v.cat.geo_indexes, name, n) ==> w.versions.contains_pair(
                    "g:"@ + n,
                    gone,
                )
        }),
{
    let w = table_dropped(v.cat, name, hlc);
    assert forall|n: Seq<char>| #[trigger]
        defined_on::<IndexDef>(v.cat.indexes, name, n) implies w.versions.contains_pair(
        "i:"@ + n,
        SchemaVersion { hlc, dropped: true },
    ) by {
        assert(drops_key(v.cat, name, "i:"@ + n));
    }
    assert forall|n: Seq<char>| #[trigger]
        defined_on::<SearchIndexDef>(
            v.cat.search_indexes,
            name,
            n,
        ) implies w.versions.contains_pair("s:"@ + n, SchemaVersion { hlc, dropped: true }) by {
        assert(drops_key(v.cat, name, "s:"@ + n));
    }
    assert forall|n: Seq<char>| #[trigger]
        defined_on::<VectorIndexDef>(
            v.cat.vector_indexes,
            name,
            n,
        ) implies w.versions.contains_pair("v:"@ + n, SchemaVersion { hlc, dropped: true }) by {
        assert(drops_key(v.cat, name, "v:"@ + n));
    }
    assert forall|n: Seq<char>| #[trigger]
        defined_on::<GeoIndexDef>(v.cat.geo_indexes, name, n) implies w.versions.contains_pair(
        "g:"@ + n,
        SchemaVersion { hlc, dropped: true },
    ) by {
        assert(drops_key(v.cat, name, "g:"@ + n));
    }
}

/// Applying the same schema statement twice is the same as applying it once.
pub proof fn replaying_a_table_statement_is_idempotent(
    v: DbView,
    ct: CreateTable,
    if_exists: bool,
    hlc: Hlc,
)
    ensures
        ({
            let once = create_table_step(v.cat, ct, hlc).1;
            create_table_step(once, ct, hlc).1 == once
        }),
        ({
            let once = drop_table_step(v, ct.name@, if_exists, hlc).1;
            drop_table_step(once, ct.name@, if_exists, hlc).1 == once
        }),
{
    let name = ct.name@;
    if advances(v.cat.versions, "t:"@ + name, hlc) {
        effective_statement_records_its_stamp(v, ct, name, if_exists, hlc);
    }
}

} // verus!
