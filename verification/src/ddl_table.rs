//! Creating and dropping databases and tables under last-writer-wins.

use vstd::prelude::*;

use crate::catalog::advances;
use crate::catalog::def_of;
use crate::catalog::defined_on;
use crate::catalog::has_def;
use crate::catalog::key_of_named;
use crate::catalog::named;
use crate::catalog::not_on;
use crate::catalog::put_def;
use crate::catalog::record_schema;
use crate::catalog::rollup_views;
use crate::catalog::schema_advances;
use crate::catalog::take_def;
use crate::catalog::take_on;
use crate::catalog::tombstone_all;
use crate::catalog::tombstoned;
use crate::catalog::CatalogView;
use crate::catalog::GeoIndexDef;
use crate::catalog::IndexDef;
use crate::catalog::IndexView;
use crate::catalog::RollupDef;
use crate::catalog::RollupView;
use crate::catalog::SchemaVersion;
use crate::catalog::SearchIndexDef;
use crate::catalog::TableDef;
use crate::catalog::TableView;
use crate::catalog::TsTableDef;
use crate::catalog::TsTableView;
use crate::catalog::VectorIndexDef;
use crate::database::copy_strings;
use crate::database::verdict;
use crate::database::without_named;
use crate::database::Database;
use crate::database::DbView;
use crate::database::DdlOutcome;
use crate::error::constraint;
use crate::error::constraint_about;
use crate::error::unsupported;
use crate::error::unsupported_about;
use crate::error::EngineError;
use crate::error::ErrorView;
use crate::hlc::Hlc;
use crate::namespace::gidx_table;
use crate::namespace::gidx_table_name;
use crate::namespace::is_system_table;
use crate::namespace::names_system_table;
use crate::text::cat;
use crate::text::has_prefix;
use crate::text::starts_with;
use crate::text::str_eq;
use crate::text::views;

verus! {

/// `CREATE TABLE`.
pub struct CreateTable {
    pub name: String,
    pub if_not_exists: bool,
    pub primary_key: Vec<String>,
    pub ttl_ms: Option<i64>,
    pub memory: bool,
    pub replication: Option<u32>,
    pub nodes: Vec<String>,
    pub witness: bool,
}

/// The definition that a `CREATE TABLE` asks for.
pub open spec fn asked_table(ct: CreateTable) -> TableView {
    TableView {
        primary_key: views(ct.primary_key@),
        ttl_ms: ct.ttl_ms,
        memory: ct.memory,
        replication: ct.replication,
        pinned_nodes: views(ct.nodes@),
        witness: ct.witness,
        prev_placement: None,
    }
}

/// A catalog with the version of `key` set.
pub open spec fn stamped(cat: CatalogView, key: Seq<char>, hlc: Hlc, dropped: bool) -> CatalogView {
    CatalogView { versions: cat.versions.insert(key, SchemaVersion { hlc, dropped }), ..cat }
}

/// Whether a name is taken by a table of either sort.
pub open spec fn table_taken(cat: CatalogView, name: Seq<char>) -> bool {
    cat.tables.dom().contains(name) || cat.timeseries.dom().contains(name)
}

/// `CREATE TABLE`: what it answers and the catalog it leaves.
pub open spec fn create_table_step(v: CatalogView, ct: CreateTable, hlc: Hlc) -> (
    Result<DdlOutcome, ErrorView>,
    CatalogView,
) {
    let name = ct.name@;
    let key = "t:"@ + name;
    if ct.primary_key@.len() == 0 {
        (Err(ErrorView::Constraint("primary key must have at least one column"@)), v)
    } else if (ct.replication is Some || ct.nodes@.len() > 0 || !ct.witness) && names_system_table(
        name,
    ) {
        (
            Err(
                ErrorView::Constraint(
                    "'"@ + name
                        + "' is a system table: placement/witness options are not allowed"@,
                ),
            ),
            v,
        )
    } else if !advances(v.versions, key, hlc) {
        (Ok(DdlOutcome::Stale), v)
    } else if table_taken(v, name) {
        if ct.if_not_exists {
            (Ok(DdlOutcome::Recorded), stamped(v, key, hlc, false))
        } else {
            (Err(ErrorView::TableExists(name)), v)
        }
    } else {
        (
            Ok(DdlOutcome::Applied),
            stamped(
                CatalogView { tables: v.tables.insert(name, asked_table(ct)), ..v },
                key,
                hlc,
                false,
            ),
        )
    }
}

/// Whether a column may be part of a series key.
pub open spec fn series_column_ok(c: Seq<char>) -> bool {
    c != "ts"@ && !has_prefix(c, "__"@)
}

/// `CREATE TIMESERIES TABLE`: what it answers and the catalog it leaves.
pub open spec fn create_timeseries_step(
    v: CatalogView,
    name: Seq<char>,
    def: TsTableView,
    if_not_exists: bool,
    hlc: Hlc,
) -> (Result<DdlOutcome, ErrorView>, CatalogView) {
    let key = "t:"@ + name;
    if def.series_key.len() == 0 {
        (Err(ErrorView::Constraint("SERIES KEY must have at least one column"@)), v)
    } else if exists|i: int|
        0 <= i < def.series_key.len() && !series_column_ok(#[trigger] def.series_key[i]) {
        (
            Err(
                ErrorView::Constraint(
                    "series key columns may not be named `ts` or start with `__`"@,
                ),
            ),
            v,
        )
    } else if !advances(v.versions, key, hlc) {
        (Ok(DdlOutcome::Stale), v)
    } else if table_taken(v, name) {
        if if_not_exists {
            (Ok(DdlOutcome::Recorded), stamped(v, key, hlc, false))
        } else {
            (Err(ErrorView::TableExists(name)), v)
        }
    } else {
        (
            Ok(DdlOutcome::Applied),
            stamped(
                CatalogView { timeseries: v.timeseries.insert(name, def), ..v },
                key,
                hlc,
                false,
            ),
        )
    }
}

/// The span that every rollup bucket divides: two hours in milliseconds.
pub const ROLLUP_SPAN_MS: i64 = 7_200_000;

/// Whether a rollup bucket is positive and nests in the flush windows.
pub open spec fn bucket_ok(bucket_ms: int) -> bool {
    bucket_ms > 0 && 7_200_000int % bucket_ms == 0
}

/// `CREATE ROLLUP`: what it answers and the catalog it leaves.
pub open spec fn create_rollup_step(
    v: CatalogView,
    name: Seq<char>,
    source: Seq<char>,
    bucket_ms: i64,
    retention_ms: Option<i64>,
    if_not_exists: bool,
    hlc: Hlc,
) -> (Result<DdlOutcome, ErrorView>, CatalogView) {
    let key = "t:"@ + name;
    if !v.timeseries.dom().contains(source) {
        (
            Err(
                ErrorView::Unsupported(
                    "ROLLUP source "@ + source + " must be a timeseries table"@,
                ),
            ),
            v,
        )
    } else if v.timeseries[source].rollup_of is Some {
        (Err(ErrorView::Unsupported("cannot create a rollup of a rollup"@)), v)
    } else if !bucket_ok(bucket_ms as int) {
        (Err(ErrorView::Constraint("BUCKET must be positive and evenly divide 2h"@)), v)
    } else if !advances(v.versions, key, hlc) {
        (Ok(DdlOutcome::Stale), v)
    } else if table_taken(v, name) {
        if if_not_exists {
            (Ok(DdlOutcome::Recorded), stamped(v, key, hlc, false))
        } else {
            (Err(ErrorView::TableExists(name)), v)
        }
    } else {
        let src = v.timeseries[source];
        let def = TsTableView {
            series_key: src.series_key,
            retention_ms,
            ooo_window_ms: 0,
            rollups: Seq::empty(),
            rollup_of: Some(source),
        };
        let registered = TsTableView {
            rollups: src.rollups.push(RollupView { name, bucket_ms }),
            ..src
        };
        (
            Ok(DdlOutcome::Applied),
            stamped(
                CatalogView {
                    timeseries: v.timeseries.insert(name, def).insert(source, registered),
                    ..v
                },
                key,
                hlc,
                false,
            ),
        )
    }
}

/// The time-series tables with `name` deregistered from its source.
pub open spec fn deregistered(ts: Map<Seq<char>, TsTableView>, name: Seq<char>) -> Map<
    Seq<char>,
    TsTableView,
> {
    match ts[name].rollup_of {
        Some(source) => if ts.dom().contains(source) {
            ts.insert(
                source,
                TsTableView {
                    rollups: ts[source].rollups.filter(|r: RollupView| r.name != name),
                    ..ts[source]
                },
            )
        } else {
            ts
        },
        None => ts,
    }
}

/// Whether dropping the time-series table `name` drops `victim`: itself and
/// its rollups.
pub open spec fn ts_victim(ts: Map<Seq<char>, TsTableView>, name: Seq<char>, victim: Seq<char>) -> bool {
    victim == name || exists|i: int|
        0 <= i < ts[name].rollups.len() && (#[trigger] ts[name].rollups[i]).name == victim
}

/// A catalog without the time-series table `name` and its rollups.
pub open spec fn ts_dropped(v: CatalogView, name: Seq<char>, hlc: Hlc) -> CatalogView {
    let ts = deregistered(v.timeseries, name);
    CatalogView {
        timeseries: Map::new(
            |n: Seq<char>| ts.dom().contains(n) && !ts_victim(v.timeseries, name, n),
            |n: Seq<char>| ts[n],
        ),
        versions: tombstoned(
            v.versions,
            |k: Seq<char>|
                exists|n: Seq<char>| #[trigger] ts_victim(v.timeseries, name, n) && k == "t:"@ + n,
            hlc,
        ),
        ..v
    }
}

/// Whether `t` is the entry table of a global index on `table`.
pub open spec fn entry_table_on(
    indexes: Map<Seq<char>, IndexView>,
    table: Seq<char>,
    t: Seq<char>,
) -> bool {
    exists|n: Seq<char>| #[trigger]
        defined_on::<IndexDef>(indexes, table, n) && indexes[n].global && t == gidx_table_name(n)
}

/// Whether dropping the table `name` drops the object with schema key `k`:
/// the table, every index on it, and the entry tables of its global indexes.
pub open spec fn drops_key(v: CatalogView, name: Seq<char>, k: Seq<char>) -> bool {
    ||| k == "t:"@ + name
    ||| exists|n: Seq<char>| #[trigger]
        defined_on::<IndexDef>(v.indexes, name, n) && (k == "i:"@ + n || (v.indexes[n].global && k
            == "t:"@ + gidx_table_name(n)))
    ||| exists|n: Seq<char>| #[trigger]
        defined_on::<SearchIndexDef>(v.search_indexes, name, n) && k == "s:"@ + n
    ||| exists|n: Seq<char>| #[trigger]
        defined_on::<VectorIndexDef>(v.vector_indexes, name, n) && k == "v:"@ + n
    ||| exists|n: Seq<char>| #[trigger]
        defined_on::<GeoIndexDef>(v.geo_indexes, name, n) && k == "g:"@ + n
}

/// A catalog without the table `name` and everything that hangs on it.
pub open spec fn table_dropped(v: CatalogView, name: Seq<char>, hlc: Hlc) -> CatalogView {
    CatalogView {
        tables: Map::new(
            |n: Seq<char>|
                v.tables.dom().contains(n) && n != name && !entry_table_on(v.indexes, name, n),
            |n: Seq<char>| v.tables[n],
        ),
        indexes: not_on::<IndexDef>(v.indexes, name),
        search_indexes: not_on::<SearchIndexDef>(v.search_indexes, name),
        vector_indexes: not_on::<VectorIndexDef>(v.vector_indexes, name),
        geo_indexes: not_on::<GeoIndexDef>(v.geo_indexes, name),
        versions: tombstoned(v.versions, |k: Seq<char>| drops_key(v, name, k), hlc),
        ..v
    }
}

/// `DROP TABLE`: what it answers and the database it leaves.
pub open spec fn drop_table_step(v: DbView, name: Seq<char>, if_exists: bool, hlc: Hlc) -> (
    Result<DdlOutcome, ErrorView>,
    DbView,
) {
    let key = "t:"@ + name;
    if !advances(v.cat.versions, key, hlc) {
        (Ok(DdlOutcome::Stale), v)
    } else if v.cat.timeseries.dom().contains(name) {
        (Ok(DdlOutcome::Applied), DbView { cat: ts_dropped(v.cat, name, hlc), ..v })
    } else if !v.cat.tables.dom().contains(name) {
        if if_exists {
            (Ok(DdlOutcome::Recorded), DbView { cat: stamped(v.cat, key, hlc, true), ..v })
        } else {
            (Err(ErrorView::TableNotFound(name)), v)
        }
    } else {
        (
            Ok(DdlOutcome::Applied),
            DbView {
                cat: table_dropped(v.cat, name, hlc),
                pending_geo_backfills: v.pending_geo_backfills.filter(
                    |n: Seq<char>| !defined_on::<GeoIndexDef>(v.cat.geo_indexes, name, n),
                ),
                ..v
            },
        )
    }
}

/// What a `DROP TABLE` took out of the catalog, for the files to follow.
pub struct DropReport {
    pub outcome: DdlOutcome,
    /// The time-series tables dropped: the named one, then its rollups.
    pub timeseries: Vec<String>,
    pub indexes: Vec<(String, IndexDef)>,
    pub search_indexes: Vec<(String, SearchIndexDef)>,
    pub vector_indexes: Vec<(String, VectorIndexDef)>,
    pub geo_indexes: Vec<(String, GeoIndexDef)>,
}

/// Whether a report names exactly what a `DROP TABLE name` takes out of the
/// catalog `v` besides the table itself.
pub open spec fn reports_drop(d: DropReport, v: CatalogView, name: Seq<char>) -> bool {
    let regular = d.outcome == DdlOutcome::Applied && !v.timeseries.dom().contains(name);
    &&& forall|n: Seq<char>| #[trigger]
        views(d.timeseries@).contains(n) <==> d.outcome == DdlOutcome::Applied
            && v.timeseries.dom().contains(name) && ts_victim(v.timeseries, name, n)
    &&& forall|n: Seq<char>| #[trigger]
        named(d.indexes@, n) <==> regular && defined_on::<IndexDef>(v.indexes, name, n)
    &&& forall|n: Seq<char>| #[trigger]
        named(d.search_indexes@, n) <==> regular && defined_on::<SearchIndexDef>(
            v.search_indexes,
            name,
            n,
        )
    &&& forall|n: Seq<char>| #[trigger]
        named(d.vector_indexes@, n) <==> regular && defined_on::<VectorIndexDef>(
            v.vector_indexes,
            name,
            n,
        )
    &&& forall|n: Seq<char>| #[trigger]
        named(d.geo_indexes@, n) <==> regular && defined_on::<GeoIndexDef>(v.geo_indexes, name, n)
}

fn nothing_dropped(outcome: DdlOutcome) -> (r: DropReport)
    ensures
        r.outcome == outcome,
        r.timeseries@.len() == 0,
        r.indexes@.len() == 0,
        r.search_indexes@.len() == 0,
        r.vector_indexes@.len() == 0,
        r.geo_indexes@.len() == 0,
{
    DropReport {
        outcome,
        timeseries: Vec::new(),
        indexes: Vec::new(),
        search_indexes: Vec::new(),
        vector_indexes: Vec::new(),
        geo_indexes: Vec::new(),
    }
}

/// The rollups without the one called `name`.
fn rollups_without(rs: Vec<RollupDef>, name: &str) -> (r: Vec<RollupDef>)
    ensures
        rollup_views(r@) == rollup_views(rs@).filter(|x: RollupView| x.name != name@),
{
    let ghost whole = rollup_views(rs@);
    let ghost p = |x: RollupView| x.name != name@;
    let ghost all = rs@;
    let mut out: Vec<RollupDef> = Vec::new();
    proof {
        assert(whole.take(0) =~= Seq::<RollupView>::empty());
        assert(rollup_views(out@) =~= whole.take(0).filter(p));
    }
    for r in it: rs
        invariant
            it.seq() == all,
            whole == rollup_views(all),
            p == (|x: RollupView| x.name != name@),
            rollup_views(out@) == whole.take(it.index() as int).filter(p),
    {
        proof {
            let n = it.index() as int;
            assert(all[n] == r);
            assert(whole[n] == r@);
            assert(whole.take(n + 1) =~= whole.take(n).push(r@));
            whole.take(n).lemma_filter_push(r@, p);
        }
        if !str_eq(r.name.as_str(), name) {
            let ghost kept = rollup_views(out@);
            out.push(r);
            proof {
                assert(rollup_views(out@) =~= kept.push(r@));
            }
        }
    }
    proof {
        assert(whole.take(whole.len() as int) =~= whole);
    }
    out
}

impl Database {
    /// Whether a database of this name exists; the default one always does.
    pub fn has_database(&self, name: &str) -> (r: bool)
        requires
            self.wf(),
        ensures
            r == known_database(self@.cat, name@),
    {
        str_eq(name, "default") || self.catalog.databases.contains(name)
    }

    /// `CREATE TABLE` stamped `hlc`.
    pub fn create_table(&mut self, ct: CreateTable, hlc: Hlc) -> (r: Result<
        DdlOutcome,
        EngineError,
    >)
        requires
            old(self).wf(),
        ensures
            final(self).wf(),
            verdict(r) == create_table_step(old(self)@.cat, ct, hlc).0,
            final(self)@ == (DbView {
                cat: create_table_step(old(self)@.cat, ct, hlc).1,
                ..old(self)@
            }),
    {
        if ct.primary_key.len() == 0 {
            return Err(constraint("primary key must have at least one column"));
        }
        if (ct.replication.is_some() || ct.nodes.len() > 0 || !ct.witness) && is_system_table(
            ct.name.as_str(),
        ) {
            return Err(
                constraint_about(
                    "'",
                    ct.name.as_str(),
                    "' is a system table: placement/witness options are not allowed",
                ),
            );
        }
        let key = cat("t:", ct.name.as_str());
        if !schema_advances(&self.catalog.schema_versions, &key, hlc) {
            return Ok(DdlOutcome::Stale);
        }
        if has_def(&self.catalog.tables, &ct.name) || has_def(&self.catalog.timeseries, &ct.name) {
            if ct.if_not_exists {
                record_schema(&mut self.catalog.schema_versions, key, hlc, false);
                return Ok(DdlOutcome::Recorded);
            }
            return Err(EngineError::TableExists(ct.name));
        }
        put_def(
            &mut self.catalog.tables,
            ct.name,
            TableDef {
                primary_key: ct.primary_key,
                ttl_ms: ct.ttl_ms,
                memory: ct.memory,
                replication: ct.replication,
                pinned_nodes: ct.nodes,
                witness: ct.witness,
                prev_placement: None,
            },
        );
        record_schema(&mut self.catalog.schema_versions, key, hlc, false);
        Ok(DdlOutcome::Applied)
    }

    /// `CREATE TIMESERIES TABLE` stamped `hlc`. Shares the table namespace and
    /// the version keys of ordinary tables.
    pub fn create_timeseries_table(
        &mut self,
        name: &str,
        series_key: Vec<String>,
        retention_ms: Option<i64>,
        ooo_window_ms: i64,
        if_not_exists: bool,
        hlc: Hlc,
    ) -> (r: Result<DdlOutcome, EngineError>)
        requires
            old(self).wf(),
        ensures
            final(self).wf(),
            ({
                let def = TsTableView {
                    series_key: views(series_key@),
                    retention_ms,
                    ooo_window_ms,
                    rollups: Seq::empty(),
                    rollup_of: None,
                };
                let step = create_timeseries_step(
                    old(self)@.cat,
                    name@,
                    def,
                    if_not_exists,
                    hlc,
                );
                verdict(r) == step.0 && final(self)@ == (DbView { cat: step.1, ..old(self)@ })
            }),
    {
        if series_key.len() == 0 {
            return Err(constraint("SERIES KEY must have at least one column"));
        }
        let mut i: usize = 0;
        while i < series_key.len()
            invariant
                i <= series_key@.len(),
                series_key@.len() > 0,
                *self == *old(self),
                self.wf(),
                forall|k: int|
                    0 <= k < i ==> series_column_ok(#[trigger] views(series_key@)[k]),
            decreases series_key@.len() - i,
        {
            if str_eq(series_key[i].as_str(), "ts") || starts_with(series_key[i].as_str(), "__") {
                proof {
                    assert(!series_column_ok(views(series_key@)[i as int]));
                }
                return Err(
                    constraint("series key columns may not be named `ts` or start with `__`"),
                );
            }
            i = i + 1;
        }
        let key = cat("t:", name);
        if !schema_advances(&self.catalog.schema_versions, &key, hlc) {
            return Ok(DdlOutcome::Stale);
        }
        let name_owned = name.to_owned();
        if has_def(&self.catalog.tables, &name_owned) || has_def(
            &self.catalog.timeseries,
            &name_owned,
        ) {
            if if_not_exists {
                record_schema(&mut self.catalog.schema_versions, key, hlc, false);
                return Ok(DdlOutcome::Recorded);
            }
            return Err(EngineError::TableExists(name_owned));
        }
        let def = TsTableDef {
            series_key,
            retention_ms,
            ooo_window_ms,
            rollups: Vec::new(),
            rollup_of: None,
        };
        proof {
            assert(def@.rollups =~= Seq::<RollupView>::empty());
        }
        put_def(&mut self.catalog.timeseries, name_owned, def);
        record_schema(&mut self.catalog.schema_versions, key, hlc, false);
        Ok(DdlOutcome::Applied)
    }

    /// `CREATE ROLLUP` stamped `hlc`: a derived time-series table holding
    /// per-bucket partials of its source.
    pub fn create_rollup(
        &mut self,
        name: &str,
        source: &str,
        bucket_ms: i64,
        retention_ms: Option<i64>,
        if_not_exists: bool,
        hlc: Hlc,
    ) -> (r: Result<DdlOutcome, EngineError>)
        requires
            old(self).wf(),
        ensures
            final(self).wf(),
            ({
                let step = create_rollup_step(
                    old(self)@.cat,
                    name@,
                    source@,
                    bucket_ms,
                    retention_ms,
                    if_not_exists,
                    hlc,
                );
                verdict(r) == step.0 && final(self)@ == (DbView { cat: step.1, ..old(self)@ })
            }),
    {
        let source_owned = source.to_owned();
        let series_key = match def_of(&self.catalog.timeseries, &source_owned) {
            None => {
                return Err(
                    unsupported_about("ROLLUP source ", source, " must be a timeseries table"),
                );
            },
            Some(src) => {
                if src.rollup_of.is_some() {
                    return Err(unsupported("cannot create a rollup of a rollup"));
                }
                copy_strings(&src.series_key)
            },
        };
        if bucket_ms <= 0 || ROLLUP_SPAN_MS % bucket_ms != 0 {
            return Err(constraint("BUCKET must be positive and evenly divide 2h"));
        }
        let key = cat("t:", name);
        if !schema_advances(&self.catalog.schema_versions, &key, hlc) {
            return Ok(DdlOutcome::Stale);
        }
        let name_owned = name.to_owned();
        if has_def(&self.catalog.tables, &name_owned) || has_def(
            &self.catalog.timeseries,
            &name_owned,
        ) {
            if if_not_exists {
                record_schema(&mut self.catalog.schema_versions, key, hlc, false);
                return Ok(DdlOutcome::Recorded);
            }
            return Err(EngineError::TableExists(name_owned));
        }
        let ghost ts = self@.cat.timeseries;
        let def = TsTableDef {
            series_key,
            retention_ms,
            ooo_window_ms: 0,
            rollups: Vec::new(),
            rollup_of: Some(source.to_owned()),
        };
        proof {
            assert(def@.rollups =~= Seq::<RollupView>::empty());
        }
        put_def(&mut self.catalog.timeseries, name_owned, def);
        match take_def(&mut self.catalog.timeseries, &source_owned) {
            Some(mut src) => {
                let ghost before = src@;
                src.rollups.push(RollupDef { name: name.to_owned(), bucket_ms });
                proof {
                    assert(src@.rollups =~= before.rollups.push(
                        RollupView { name: name@, bucket_ms },
                    ));
                }
                put_def(&mut self.catalog.timeseries, source_owned, src);
                proof {
                    assert(self@.cat.timeseries =~= ts.insert(name@, def@).insert(
                        source@,
                        src@,
                    ));
                }
            },
            None => {},
        }
        record_schema(&mut self.catalog.schema_versions, key, hlc, false);
        Ok(DdlOutcome::Applied)
    }

    /// `DROP TABLE` stamped `hlc`: a time-series source takes its rollups with
    /// it, a rollup leaves its source's list, and a table takes every index on
    /// it and the entry tables of its global indexes.
    pub fn drop_table(&mut self, name: &str, if_exists: bool, hlc: Hlc) -> (r: Result<
        DropReport,
        EngineError,
    >)
        requires
            old(self).wf(),
        ensures
            final(self).wf(),
            ({
                let step = drop_table_step(old(self)@, name@, if_exists, hlc);
                &&& final(self)@ == step.1
                &&& match r {
                    Ok(d) => step.0 == Ok::<DdlOutcome, ErrorView>(d.outcome) && reports_drop(
                        d,
                        old(self)@.cat,
                        name@,
                    ),
                    Err(e) => step.0 == Err::<DdlOutcome, ErrorView>(e@),
                }
            }),
    {
        let key = cat("t:", name);
        if !schema_advances(&self.catalog.schema_versions, &key, hlc) {
            return Ok(nothing_dropped(DdlOutcome::Stale));
        }
        let name_owned = name.to_owned();
        if has_def(&self.catalog.timeseries, &name_owned) {
            return Ok(self.drop_timeseries(name, hlc));
        }
        if !has_def(&self.catalog.tables, &name_owned) {
            if if_exists {
                record_schema(&mut self.catalog.schema_versions, key, hlc, true);
                return Ok(nothing_dropped(DdlOutcome::Recorded));
            }
            return Err(EngineError::TableNotFound(name_owned));
        }
        let ghost v = self@.cat;
        take_def(&mut self.catalog.tables, &name_owned);
        let indexes = take_on(&mut self.catalog.indexes, name);
        tombstone_all(&mut self.catalog.schema_versions, "i:", &indexes, hlc);
        let ghost a1 = self@.cat.versions;
        self.drop_entry_tables(&indexes, hlc);
        let ghost a2 = self@.cat.versions;
        let search_indexes = take_on(&mut self.catalog.search_indexes, name);
        tombstone_all(&mut self.catalog.schema_versions, "s:", &search_indexes, hlc);
        let ghost a3 = self@.cat.versions;
        let vector_indexes = take_on(&mut self.catalog.vector_indexes, name);
        tombstone_all(&mut self.catalog.schema_versions, "v:", &vector_indexes, hlc);
        let ghost a4 = self@.cat.versions;
        let geo_indexes = take_on(&mut self.catalog.geo_indexes, name);
        tombstone_all(&mut self.catalog.schema_versions, "g:", &geo_indexes, hlc);
        let ghost a5 = self@.cat.versions;
        let pending = without_named(&self.pending_geo_backfills, &geo_indexes);
        self.pending_geo_backfills = pending;
        record_schema(&mut self.catalog.schema_versions, key, hlc, true);
        proof {
            let w = table_dropped(v, name@, hlc);
            assert(self@.cat.tables =~= w.tables) by {
                assert forall|t: Seq<char>|
                    entry_table_named(indexes@, t) <==> entry_table_on(v.indexes, name@, t) by {
                    lemma_entry_table_named(indexes@, v.indexes, name@, t);
                }
            }
            assert forall|k: Seq<char>| #[trigger]
                drops_key(v, name@, k) <==> (k == "t:"@ + name@ || key_of_named(
                    "i:"@,
                    indexes@,
                    k,
                ) || entry_key_named(indexes@, k) || key_of_named("s:"@, search_indexes@, k)
                    || key_of_named("v:"@, vector_indexes@, k) || key_of_named(
                    "g:"@,
                    geo_indexes@,
                    k,
                )) by {
                lemma_index_keys(indexes@, v.indexes, name@, k);
                lemma_named_keys::<SearchIndexDef>(
                    "s:"@,
                    search_indexes@,
                    v.search_indexes,
                    name@,
                    k,
                );
                lemma_named_keys::<VectorIndexDef>(
                    "v:"@,
                    vector_indexes@,
                    v.vector_indexes,
                    name@,
                    k,
                );
                lemma_named_keys::<GeoIndexDef>("g:"@, geo_indexes@, v.geo_indexes, name@, k);
            }
            let last = self@.cat.versions;
            assert forall|k: Seq<char>|
                #![trigger last.dom().contains(k)]
                #![trigger last[k]]
                (last.dom().contains(k) <==> w.versions.dom().contains(k)) && (last.dom().contains(
                    k,
                ) ==> last[k] == w.versions[k]) by {
                let hi = |k: Seq<char>| key_of_named("i:"@, indexes@, k);
                let he = |k: Seq<char>| entry_key_named(indexes@, k);
                let hs = |k: Seq<char>| key_of_named("s:"@, search_indexes@, k);
                let hv = |k: Seq<char>| key_of_named("v:"@, vector_indexes@, k);
                let hg = |k: Seq<char>| key_of_named("g:"@, geo_indexes@, k);
                lemma_tombstoned(v.versions, hi, hlc, k);
                lemma_tombstoned(a1, he, hlc, k);
                lemma_tombstoned(a2, hs, hlc, k);
                lemma_tombstoned(a3, hv, hlc, k);
                lemma_tombstoned(a4, hg, hlc, k);
                lemma_tombstoned(v.versions, |k: Seq<char>| drops_key(v, name@, k), hlc, k);
                assert(a1 == tombstoned(v.versions, hi, hlc));
                assert(a2 == tombstoned(a1, he, hlc));
                assert(a3 == tombstoned(a2, hs, hlc));
                assert(a4 == tombstoned(a3, hv, hlc));
                assert(a5 == tombstoned(a4, hg, hlc));
                assert(drops_key(v, name@, k) || !drops_key(v, name@, k));
            }
            assert(last =~= w.versions);
            let p1 = |n: Seq<char>| !named(geo_indexes@, n);
            let p2 = |n: Seq<char>| !defined_on::<GeoIndexDef>(v.geo_indexes, name@, n);
            assert forall|n: Seq<char>| #[trigger] p1(n) == p2(n) by {
                assert(named(geo_indexes@, n) <==> defined_on::<GeoIndexDef>(
                    v.geo_indexes,
                    name@,
                    n,
                ));
            }
            assert(p1 =~= p2);
        }
        Ok(
            DropReport {
                outcome: DdlOutcome::Applied,
                timeseries: Vec::new(),
                indexes,
                search_indexes,
                vector_indexes,
                geo_indexes,
            },
        )
    }

    /// Takes the entry tables of the global ones among `indexes` out of the
    /// catalog and records their tombstones.
    fn drop_entry_tables(&mut self, indexes: &Vec<(String, IndexDef)>, hlc: Hlc)
        requires
            old(self).wf(),
        ensures
            final(self).wf(),
            final(self)@.cat.tables == without_entry_tables(old(self)@.cat.tables, indexes@),
            final(self)@.cat.versions == tombstoned(
                old(self)@.cat.versions,
                |k: Seq<char>| entry_key_named(indexes@, k),
                hlc,
            ),
            final(self)@ == (DbView {
                cat: CatalogView {
                    tables: final(self)@.cat.tables,
                    versions: final(self)@.cat.versions,
                    ..old(self)@.cat
                },
                ..old(self)@
            }),
    {
        let ghost v = self@.cat;
        let mut i: usize = 0;
        proof {
            let none = indexes@.take(0);
            assert(v.tables =~= without_entry_tables(v.tables, none));
            assert(v.versions =~= tombstoned(
                v.versions,
                |k: Seq<char>| entry_key_named(none, k),
                hlc,
            ));
        }
        while i < indexes.len()
            invariant
                i <= indexes@.len(),
                self.wf(),
                v == old(self)@.cat,
                self@.cat.tables == without_entry_tables(v.tables, indexes@.take(i as int)),
                self@.cat.versions == tombstoned(
                    v.versions,
                    |k: Seq<char>| entry_key_named(indexes@.take(i as int), k),
                    hlc,
                ),
                self@ == (DbView {
                    cat: CatalogView {
                        tables: self@.cat.tables,
                        versions: self@.cat.versions,
                        ..old(self)@.cat
                    },
                    ..old(self)@
                }),
            decreases indexes@.len() - i,
        {
            let ghost a = indexes@.take(i as int);
            let ghost b = indexes@.take(i + 1);
            let ghost g = gidx_table_name(indexes@[i as int].0@);
            let ghost is_global = indexes@[i as int].1.global;
            if indexes[i].1.global {
                let gname = gidx_table(indexes[i].0.as_str());
                take_def(&mut self.catalog.tables, &gname);
                record_schema(
                    &mut self.catalog.schema_versions,
                    cat("t:", gname.as_str()),
                    hlc,
                    true,
                );
            }
            proof {
                assert forall|t: Seq<char>|
                    entry_table_named(b, t) <==> entry_table_named(a, t) || (is_global && t
                        == g) by {
                    if entry_table_named(b, t) {
                        let p = choose|p: int|
                            0 <= p < b.len() && (#[trigger] b[p]).1.global && t == gidx_table_name(
                                b[p].0@,
                            );
                        if p < i {
                            assert(a[p] == b[p]);
                        }
                    }
                    if entry_table_named(a, t) {
                        let p = choose|p: int|
                            0 <= p < a.len() && (#[trigger] a[p]).1.global && t == gidx_table_name(
                                a[p].0@,
                            );
                        assert(b[p] == a[p]);
                    }
                    if is_global && t == g {
                        assert(b[i as int] == indexes@[i as int]);
                    }
                }
                assert forall|k: Seq<char>|
                    entry_key_named(b, k) <==> entry_key_named(a, k) || (is_global && k == "t:"@
                        + g) by {
                    if entry_key_named(b, k) {
                        let t = choose|t: Seq<char>| #[trigger]
                            entry_table_named(b, t) && k == "t:"@ + t;
                        assert(entry_table_named(a, t) || (is_global && t == g));
                    }
                    if entry_key_named(a, k) {
                        let t = choose|t: Seq<char>| #[trigger]
                            entry_table_named(a, t) && k == "t:"@ + t;
                        assert(entry_table_named(b, t));
                    }
                    if is_global && k == "t:"@ + g {
                        assert(entry_table_named(b, g));
                    }
                }
                assert(self@.cat.tables =~= without_entry_tables(v.tables, b));
                assert(self@.cat.versions =~= tombstoned(
                    v.versions,
                    |k: Seq<char>| entry_key_named(b, k),
                    hlc,
                ));
            }
            i = i + 1;
        }
        proof {
            assert(indexes@.take(indexes@.len() as int) =~= indexes@);
        }
    }

    /// Takes a time-series table and its rollups out of the catalog.
    fn drop_timeseries(&mut self, name: &str, hlc: Hlc) -> (r: DropReport)
        requires
            old(self).wf(),
            old(self)@.cat.timeseries.dom().contains(name@),
        ensures
            final(self).wf(),
            final(self)@ == (DbView { cat: ts_dropped(old(self)@.cat, name@, hlc), ..old(self)@ }),
            r.outcome == DdlOutcome::Applied,
            reports_drop(r, old(self)@.cat, name@),
    {
        let ghost v = self@.cat;
        let ghost ts = v.timeseries;
        let name_owned = name.to_owned();
        let mut victims: Vec<String> = Vec::new();
        victims.push(name.to_owned());
        let mut source: Option<String> = None;
        proof {
            assert(views(victims@) =~= seq![name@]);
        }
        if let Some(def) = def_of(&self.catalog.timeseries, &name_owned) {
            source = def.rollup_of.clone();
            proof {
                assert(def@ == ts[name@]);
            }
            let mut i: usize = 0;
            while i < def.rollups.len()
                invariant
                    i <= def.rollups@.len(),
                    views(victims@) == seq![name@] + rollup_names(def.rollups@.take(i as int)),
                decreases def.rollups@.len() - i,
            {
                let ghost before = views(victims@);
                victims.push(def.rollups[i].name.clone());
                proof {
                    assert(views(victims@) =~= before.push(def.rollups@[i as int].name@));
                    assert(rollup_names(def.rollups@.take(i + 1)) =~= rollup_names(
                        def.rollups@.take(i as int),
                    ).push(def.rollups@[i as int].name@));
                    assert(views(victims@) =~= seq![name@] + rollup_names(def.rollups@.take(i + 1)));
                }
                i = i + 1;
            }
            proof {
                assert(def.rollups@.take(def.rollups@.len() as int) =~= def.rollups@);
                lemma_victims(ts, name@, *def, views(victims@));
            }
        }
        if let Some(src) = &source {
            if let Some(mut sdef) = take_def(&mut self.catalog.timeseries, src) {
                let ghost before = sdef@;
                let kept = rollups_without(sdef.rollups, name);
                sdef.rollups = kept;
                put_def(&mut self.catalog.timeseries, src.clone(), sdef);
                proof {
                    assert(sdef@ == (TsTableView {
                        rollups: before.rollups.filter(|x: RollupView| x.name != name@),
                        ..before
                    }));
                    assert(self@.cat.timeseries =~= ts.insert(src@, sdef@));
                }
            } else {
                proof {
                    assert(self@.cat.timeseries =~= ts);
                }
            }
        }
        let ghost mid = deregistered(ts, name@);
        assert(self@.cat.timeseries == mid);
        let mut i: usize = 0;
        proof {
            let none = views(victims@).take(0);
            assert(mid =~= without_names(mid, none));
            assert(v.versions =~= tombstoned(
                v.versions,
                |k: Seq<char>| key_in("t:"@, none, k),
                hlc,
            ));
        }
        while i < victims.len()
            invariant
                i <= victims@.len(),
                self.wf(),
                v == old(self)@.cat,
                self@.cat.timeseries == without_names(mid, views(victims@).take(i as int)),
                self@.cat.versions == tombstoned(
                    v.versions,
                    |k: Seq<char>| key_in("t:"@, views(victims@).take(i as int), k),
                    hlc,
                ),
                self@ == (DbView {
                    cat: CatalogView {
                        timeseries: self@.cat.timeseries,
                        versions: self@.cat.versions,
                        ..v
                    },
                    ..old(self)@
                }),
            decreases victims@.len() - i,
        {
            take_def(&mut self.catalog.timeseries, &victims[i]);
            record_schema(
                &mut self.catalog.schema_versions,
                cat("t:", victims[i].as_str()),
                hlc,
                true,
            );
            proof {
                let a = views(victims@).take(i as int);
                let b = views(victims@).take(i + 1);
                let x = victims@[i as int]@;
                assert(b =~= a.push(x));
                lemma_push_contains(a, x);
                assert(self@.cat.timeseries =~= without_names(mid, b));
                assert forall|k: Seq<char>|
                    key_in("t:"@, b, k) <==> key_in("t:"@, a, k) || k == "t:"@ + x by {
                    lemma_key_in_push("t:"@, a, x, k);
                }
                assert(self@.cat.versions =~= tombstoned(
                    v.versions,
                    |k: Seq<char>| key_in("t:"@, b, k),
                    hlc,
                ));
            }
            i = i + 1;
        }
        proof {
            let all = views(victims@);
            assert(all.take(all.len() as int) =~= all);
            let w = ts_dropped(v, name@, hlc);
            assert(self@.cat.timeseries =~= w.timeseries);
            assert forall|k: Seq<char>|
                key_in("t:"@, all, k) <==> exists|n: Seq<char>| #[trigger]
                    ts_victim(ts, name@, n) && k == "t:"@ + n by {
                if key_in("t:"@, all, k) {
                    let n = choose|n: Seq<char>| #[trigger] all.contains(n) && k == "t:"@ + n;
                    assert(ts_victim(ts, name@, n));
                }
                if exists|n: Seq<char>| #[trigger] ts_victim(ts, name@, n) && k == "t:"@ + n {
                    let n = choose|n: Seq<char>| #[trigger]
                        ts_victim(ts, name@, n) && k == "t:"@ + n;
                    assert(all.contains(n));
                }
            }
            assert(self@.cat.versions =~= w.versions);
        }
        DropReport {
            outcome: DdlOutcome::Applied,
            timeseries: victims,
            indexes: Vec::new(),
            search_indexes: Vec::new(),
            vector_indexes: Vec::new(),
            geo_indexes: Vec::new(),
        }
    }
}

/// Whether a database of this name exists; the default one always does.
pub open spec fn known_database(v: CatalogView, name: Seq<char>) -> bool {
    name == "default"@ || v.databases.contains(name)
}

/// The names of a list of rollups.
pub open spec fn rollup_names(rs: Seq<RollupDef>) -> Seq<Seq<char>> {
    rs.map_values(|r: RollupDef| r.name@)
}

/// The definitions without those named.
spec fn without_names(m: Map<Seq<char>, TsTableView>, names: Seq<Seq<char>>) -> Map<
    Seq<char>,
    TsTableView,
> {
    Map::new(|n: Seq<char>| m.dom().contains(n) && !names.contains(n), |n: Seq<char>| m[n])
}

/// Whether `k` is a prefix with one of the names behind it.
spec fn key_in(prefix: Seq<char>, names: Seq<Seq<char>>, k: Seq<char>) -> bool {
    exists|n: Seq<char>| #[trigger] names.contains(n) && k == prefix + n
}

proof fn lemma_tombstoned(
    versions: Map<Seq<char>, SchemaVersion>,
    hit: spec_fn(Seq<char>) -> bool,
    hlc: Hlc,
    k: Seq<char>,
)
    ensures
        tombstoned(versions, hit, hlc).dom().contains(k) <==> versions.dom().contains(k) || hit(k),
        hit(k) ==> tombstoned(versions, hit, hlc)[k] == (SchemaVersion { hlc, dropped: true }),
        versions.dom().contains(k) && !hit(k) ==> tombstoned(versions, hit, hlc)[k] == versions[k],
{
}

proof fn lemma_push_contains(a: Seq<Seq<char>>, x: Seq<char>)
    ensures
        forall|n: Seq<char>| #[trigger] a.push(x).contains(n) <==> a.contains(n) || n == x,
{
    let b = a.push(x);
    assert forall|n: Seq<char>| #[trigger] b.contains(n) <==> a.contains(n) || n == x by {
        if b.contains(n) {
            let p = choose|p: int| 0 <= p < b.len() && b[p] == n;
            if p < a.len() {
                assert(a[p] == n);
            }
        }
        if a.contains(n) {
            let p = choose|p: int| 0 <= p < a.len() && a[p] == n;
            assert(b[p] == n);
        }
        if n == x {
            assert(b[a.len() as int] == n);
        }
    }
}

proof fn lemma_key_in_push(prefix: Seq<char>, a: Seq<Seq<char>>, x: Seq<char>, k: Seq<char>)
    ensures
        key_in(prefix, a.push(x), k) <==> key_in(prefix, a, k) || k == prefix + x,
{
    lemma_push_contains(a, x);
    if key_in(prefix, a.push(x), k) {
        let n = choose|n: Seq<char>| #[trigger] a.push(x).contains(n) && k == prefix + n;
        assert(a.contains(n) || n == x);
    }
    if key_in(prefix, a, k) {
        let n = choose|n: Seq<char>| #[trigger] a.contains(n) && k == prefix + n;
        assert(a.push(x).contains(n));
    }
    if k == prefix + x {
        assert(a.push(x).contains(x));
    }
}

/// The names collected from a time-series definition are its victims.
proof fn lemma_victims(
    ts: Map<Seq<char>, TsTableView>,
    name: Seq<char>,
    def: TsTableDef,
    all: Seq<Seq<char>>,
)
    requires
        def@ == ts[name],
        all == seq![name] + rollup_names(def.rollups@),
    ensures
        forall|n: Seq<char>| #[trigger] all.contains(n) <==> ts_victim(ts, name, n),
{
    assert forall|n: Seq<char>| #[trigger] all.contains(n) <==> ts_victim(ts, name, n) by {
        if all.contains(n) {
            let p = choose|p: int| 0 <= p < all.len() && all[p] == n;
            if p > 0 {
                assert(ts[name].rollups[p - 1].name == n);
            }
        }
        if ts_victim(ts, name, n) {
            if n == name {
                assert(all[0] == n);
            } else {
                let i = choose|i: int|
                    0 <= i < ts[name].rollups.len() && (#[trigger] ts[name].rollups[i]).name == n;
                assert(all[i + 1] == n);
            }
        }
    }
}

/// Whether `t` is the entry table of a global one among the named indexes.
spec fn entry_table_named(ds: Seq<(String, IndexDef)>, t: Seq<char>) -> bool {
    exists|i: int| 0 <= i < ds.len() && (#[trigger] ds[i]).1.global && t == gidx_table_name(ds[i].0@)
}

/// Whether `k` is the schema key of such an entry table.
spec fn entry_key_named(ds: Seq<(String, IndexDef)>, k: Seq<char>) -> bool {
    exists|t: Seq<char>| #[trigger] entry_table_named(ds, t) && k == "t:"@ + t
}

/// The tables without those entry tables.
spec fn without_entry_tables(
    tables: Map<Seq<char>, TableView>,
    ds: Seq<(String, IndexDef)>,
) -> Map<Seq<char>, TableView> {
    Map::new(
        |n: Seq<char>| tables.dom().contains(n) && !entry_table_named(ds, n),
        |n: Seq<char>| tables[n],
    )
}

/// What `take_on` says of the definitions it took.
spec fn taken<D: crate::catalog::OnTable>(
    ds: Seq<(String, D)>,
    m: Map<Seq<char>, D::V>,
    table: Seq<char>,
) -> bool {
    &&& forall|n: Seq<char>| #[trigger] named(ds, n) <==> defined_on::<D>(m, table, n)
    &&& forall|i: int|
        0 <= i < ds.len() ==> m.dom().contains((#[trigger] ds[i]).0@) && ds[i].1@ == m[ds[i].0@]
}

proof fn lemma_entry_table_named(
    ds: Seq<(String, IndexDef)>,
    m: Map<Seq<char>, IndexView>,
    table: Seq<char>,
    t: Seq<char>,
)
    requires
        taken::<IndexDef>(ds, m, table),
    ensures
        entry_table_named(ds, t) <==> entry_table_on(m, table, t),
{
    if entry_table_named(ds, t) {
        let i = choose|i: int|
            0 <= i < ds.len() && (#[trigger] ds[i]).1.global && t == gidx_table_name(ds[i].0@);
        assert(named(ds, ds[i].0@));
        assert(defined_on::<IndexDef>(m, table, ds[i].0@));
        assert(m[ds[i].0@].global);
    }
    if entry_table_on(m, table, t) {
        let n = choose|n: Seq<char>| #[trigger]
            defined_on::<IndexDef>(m, table, n) && m[n].global && t == gidx_table_name(n);
        assert(named(ds, n));
        let i = choose|i: int| 0 <= i < ds.len() && (#[trigger] ds[i]).0@ == n;
        assert(ds[i].1@ == m[n]);
    }
}

proof fn lemma_named_keys<D: crate::catalog::OnTable>(
    prefix: Seq<char>,
    ds: Seq<(String, D)>,
    m: Map<Seq<char>, D::V>,
    table: Seq<char>,
    k: Seq<char>,
)
    requires
        taken::<D>(ds, m, table),
    ensures
        key_of_named(prefix, ds, k) <==> exists|n: Seq<char>| #[trigger]
            defined_on::<D>(m, table, n) && k == prefix + n,
{
    if key_of_named(prefix, ds, k) {
        let i = choose|i: int| 0 <= i < ds.len() && k == prefix + (#[trigger] ds[i]).0@;
        assert(named(ds, ds[i].0@));
        assert(defined_on::<D>(m, table, ds[i].0@));
    }
    if exists|n: Seq<char>| #[trigger] defined_on::<D>(m, table, n) && k == prefix + n {
        let n = choose|n: Seq<char>| #[trigger] defined_on::<D>(m, table, n) && k == prefix + n;
        assert(named(ds, n));
        let i = choose|i: int| 0 <= i < ds.len() && (#[trigger] ds[i]).0@ == n;
        assert(k == prefix + ds[i].0@);
    }
}

proof fn lemma_index_keys(
    ds: Seq<(String, IndexDef)>,
    m: Map<Seq<char>, IndexView>,
    table: Seq<char>,
    k: Seq<char>,
)
    requires
        taken::<IndexDef>(ds, m, table),
    ensures
        (key_of_named("i:"@, ds, k) || entry_key_named(ds, k)) <==> exists|n: Seq<char>| #[trigger]
            defined_on::<IndexDef>(m, table, n) && (k == "i:"@ + n || (m[n].global && k == "t:"@
                + gidx_table_name(n))),
{
    lemma_named_keys::<IndexDef>("i:"@, ds, m, table, k);
    if entry_key_named(ds, k) {
        let t = choose|t: Seq<char>| #[trigger] entry_table_named(ds, t) && k == "t:"@ + t;
        lemma_entry_table_named(ds, m, table, t);
        let n = choose|n: Seq<char>| #[trigger]
            defined_on::<IndexDef>(m, table, n) && m[n].global && t == gidx_table_name(n);
        assert(defined_on::<IndexDef>(m, table, n));
    }
    if exists|n: Seq<char>| #[trigger]
        defined_on::<IndexDef>(m, table, n) && (k == "i:"@ + n || (m[n].global && k == "t:"@
            + gidx_table_name(n))) {
        let n = choose|n: Seq<char>| #[trigger]
            defined_on::<IndexDef>(m, table, n) && (k == "i:"@ + n || (m[n].global && k == "t:"@
                + gidx_table_name(n)));
        if k != "i:"@ + n {
            lemma_entry_table_named(ds, m, table, gidx_table_name(n));
            assert(entry_table_on(m, table, gidx_table_name(n)));
            assert(entry_table_named(ds, gidx_table_name(n)));
        }
    }
}

} // verus!
