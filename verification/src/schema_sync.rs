//! The schema as statements: what a joining or lagging node replays to reach
//! this node's catalog.

use vstd::prelude::*;
use vstd::string::StringExecFns;

use crate::auth::encode_role_state;
use crate::auth::role_text;
use crate::catalog::def_of;
use crate::catalog::AuthRoleDef;
use crate::catalog::Catalog;
use crate::catalog::GeoIndexDef;
use crate::catalog::GeoIndexView;
use crate::catalog::IndexDef;
use crate::catalog::IndexView;
use crate::catalog::RollupDef;
use crate::catalog::RollupView;
use crate::catalog::SchemaVersion;
use crate::catalog::SearchIndexDef;
use crate::catalog::SearchIndexView;
use crate::catalog::TableDef;
use crate::catalog::TableView;
use crate::catalog::TsTableDef;
use crate::catalog::TsTableView;
use crate::catalog::UserAuthKind;
use crate::catalog::UserDef;
use crate::catalog::UserView;
use crate::catalog::VectorIndexDef;
use crate::catalog::VectorIndexView;
use crate::database::Database;
use crate::hlc::hlc_min;
use crate::hlc::Hlc;
use crate::namespace::split as split_qualified;
use crate::namespace::split_name;
use crate::text::cat;
use crate::text::cat3;
use crate::text::decimal;
use crate::text::decimal_of;
use crate::text::first_of;
use crate::text::has_prefix;
use crate::text::join;
use crate::text::joined;
use crate::text::lemma_first_of;
use crate::text::signed_decimal;
use crate::text::signed_decimal_of;
use crate::text::split_once;
use crate::text::starts_with;
use crate::text::str_eq;
use crate::text::views;

verus! {

/// A statement to replay: the database to run it in, its text, and the version
/// stamp of the object it is about.
pub type SyncLine = (String, String, Hlc);

/// A statement to replay, by its characters.
pub type LineView = (Seq<char>, Seq<char>, Hlc);

/// A list of statements, by their characters.
pub open spec fn line_views(ls: Seq<SyncLine>) -> Seq<LineView> {
    ls.map_values(|l: SyncLine| (l.0@, l.1@, l.2))
}

/// The recorded stamp of a schema object; the earliest one where it has none.
pub open spec fn stamp_of(versions: Map<Seq<char>, SchemaVersion>, key: Seq<char>) -> Hlc {
    if versions.dom().contains(key) {
        versions[key].hlc
    } else {
        hlc_min()
    }
}

/// What `f` makes of each entry, one after the other.
pub open spec fn flat<D>(es: Seq<(String, D)>, f: spec_fn(Seq<char>, D) -> Seq<LineView>) -> Seq<
    LineView,
>
    decreases es.len(),
{
    if es.len() == 0 {
        Seq::empty()
    } else {
        flat(es.drop_last(), f) + f(es.last().0@, es.last().1)
    }
}

/// The `WITH (...)` clause of a table's options; empty where all are default.
pub open spec fn with_text(def: TableView) -> Seq<char> {
    let ttl = match def.ttl_ms {
        Some(ms) => seq!["ttl = "@ + signed_decimal(ms as int)],
        None => Seq::<Seq<char>>::empty(),
    };
    let opts = if def.memory {
        ttl.push("memory = true"@)
    } else {
        ttl
    };
    if opts.len() == 0 {
        Seq::empty()
    } else {
        " WITH ("@ + joined(opts, ", "@) + ")"@
    }
}

/// The `WITH (...)` clause of a table's options.
pub fn table_with_options(def: &TableDef) -> (r: String)
    ensures
        r@ == with_text(def@),
{
    let mut opts: Vec<String> = Vec::new();
    if let Some(ms) = def.ttl_ms {
        opts.push(cat("ttl = ", signed_decimal_of(ms).as_str()));
        proof {
            assert(views(opts@) =~= seq!["ttl = "@ + signed_decimal(ms as int)]);
        }
    } else {
        proof {
            assert(views(opts@) =~= Seq::<Seq<char>>::empty());
        }
    }
    if def.memory {
        let ghost before = views(opts@);
        opts.push("memory = true".to_owned());
        proof {
            assert(views(opts@) =~= before.push("memory = true"@));
        }
    }
    if opts.len() == 0 {
        return String::new();
    }
    cat3(" WITH (", join(&opts, ", ").as_str(), ")")
}

/// The statement that makes a time-series table.
pub open spec fn ts_create_text(bare: Seq<char>, def: TsTableView) -> Seq<char> {
    "CREATE TIMESERIES TABLE IF NOT EXISTS "@ + bare + " (SERIES KEY ("@ + joined(
        def.series_key,
        ", "@,
    ) + ")"@ + (match def.retention_ms {
        Some(ms) => ", RETENTION "@ + signed_decimal(ms as int) + "ms"@,
        None => Seq::empty(),
    }) + (if def.ooo_window_ms > 0 {
        ", OOO "@ + signed_decimal(def.ooo_window_ms as int) + "ms"@
    } else {
        Seq::empty()
    }) + ")"@
}

/// The statement that makes a time-series table.
pub fn ts_create_ddl(bare: &str, def: &TsTableDef) -> (r: String)
    ensures
        r@ == ts_create_text(bare@, def@),
{
    let mut out = cat3("CREATE TIMESERIES TABLE IF NOT EXISTS ", bare, " (SERIES KEY (");
    out.append(join(&def.series_key, ", ").as_str());
    out.append(")");
    match def.retention_ms {
        Some(ms) => {
            let clause = cat3(", RETENTION ", signed_decimal_of(ms).as_str(), "ms");
            out.append(clause.as_str());
        },
        None => {
            proof {
                assert(out@ + Seq::<char>::empty() =~= out@);
            }
        },
    }
    if def.ooo_window_ms > 0 {
        let clause = cat3(", OOO ", signed_decimal_of(def.ooo_window_ms).as_str(), "ms");
        out.append(clause.as_str());
    } else {
        proof {
            assert(out@ + Seq::<char>::empty() =~= out@);
        }
    }
    out.append(")");
    out
}

/// The statement that makes a rollup.
pub open spec fn ts_rollup_text(
    bare: Seq<char>,
    source: Seq<char>,
    bucket_ms: i64,
    def: TsTableView,
) -> Seq<char> {
    "CREATE ROLLUP IF NOT EXISTS "@ + bare + " ON "@ + source + " BUCKET "@ + signed_decimal(
        bucket_ms as int,
    ) + "ms"@ + (match def.retention_ms {
        Some(ms) => " RETENTION "@ + signed_decimal(ms as int) + "ms"@,
        None => Seq::empty(),
    })
}

/// The statement that makes a rollup.
pub fn ts_rollup_ddl(bare: &str, source_bare: &str, bucket_ms: i64, def: &TsTableDef) -> (r: String)
    ensures
        r@ == ts_rollup_text(bare@, source_bare@, bucket_ms, def@),
{
    let mut out = cat3("CREATE ROLLUP IF NOT EXISTS ", bare, " ON ");
    out.append(source_bare);
    out.append(" BUCKET ");
    out.append(signed_decimal_of(bucket_ms).as_str());
    out.append("ms");
    match def.retention_ms {
        Some(ms) => {
            let clause = cat3(" RETENTION ", signed_decimal_of(ms).as_str(), "ms");
            out.append(clause.as_str());
        },
        None => {
            proof {
                assert(out@ + Seq::<char>::empty() =~= out@);
            }
        },
    }
    out
}

/// The line of a database.
pub open spec fn database_line(vs: Map<Seq<char>, SchemaVersion>, db: Seq<char>) -> Seq<LineView> {
    seq![("default"@, "CREATE DATABASE IF NOT EXISTS "@ + db, stamp_of(vs, "d:"@ + db))]
}

/// The line of a table. An entry table has none: its index implies it.
pub open spec fn table_line(
    vs: Map<Seq<char>, SchemaVersion>,
    name: Seq<char>,
    def: TableView,
) -> Seq<LineView> {
    let (db, bare) = split_name(name);
    if has_prefix(bare, "__gidx__"@) {
        Seq::empty()
    } else {
        seq![
            (
                db,
                "CREATE TABLE IF NOT EXISTS "@ + bare + " (PRIMARY KEY ("@ + joined(
                    def.primary_key,
                    ", "@,
                ) + "))"@ + with_text(def),
                stamp_of(vs, "t:"@ + name),
            ),
        ]
    }
}

/// The line of one rollup of the table with bare name `source`.
pub open spec fn rollup_line(
    vs: Map<Seq<char>, SchemaVersion>,
    ts: Map<Seq<char>, TsTableView>,
    source: Seq<char>,
    r: RollupView,
) -> Seq<LineView> {
    if ts.dom().contains(r.name) {
        let (db, bare) = split_name(r.name);
        seq![
            (
                db,
                ts_rollup_text(bare, source, r.bucket_ms, ts[r.name]),
                stamp_of(vs, "t:"@ + r.name),
            ),
        ]
    } else {
        Seq::empty()
    }
}

/// The lines of a table's rollups.
pub open spec fn rollup_lines(
    vs: Map<Seq<char>, SchemaVersion>,
    ts: Map<Seq<char>, TsTableView>,
    source: Seq<char>,
    rs: Seq<RollupView>,
) -> Seq<LineView>
    decreases rs.len(),
{
    if rs.len() == 0 {
        Seq::empty()
    } else {
        rollup_lines(vs, ts, source, rs.drop_last()) + rollup_line(vs, ts, source, rs.last())
    }
}

/// The lines of a time-series table: its own and those of its rollups. A
/// rollup has none of its own.
pub open spec fn timeseries_lines(
    vs: Map<Seq<char>, SchemaVersion>,
    ts: Map<Seq<char>, TsTableView>,
    name: Seq<char>,
    def: TsTableView,
) -> Seq<LineView> {
    if def.rollup_of is Some {
        Seq::empty()
    } else {
        let (db, bare) = split_name(name);
        seq![(db, ts_create_text(bare, def), stamp_of(vs, "t:"@ + name))] + rollup_lines(
            vs,
            ts,
            bare,
            def.rollups,
        )
    }
}

/// The clause that says whether an index is global and ready.
pub open spec fn global_clause(def: IndexView) -> Seq<char> {
    if !def.global {
        ""@
    } else if def.building {
        " WITH (global = true)"@
    } else {
        " WITH (global = true, ready = true)"@
    }
}

/// The line of a secondary index.
pub open spec fn index_line(
    vs: Map<Seq<char>, SchemaVersion>,
    name: Seq<char>,
    def: IndexView,
) -> Seq<LineView> {
    let (db, bare) = split_name(name);
    seq![
        (
            db,
            "CREATE INDEX IF NOT EXISTS "@ + bare + " ON "@ + split_name(def.table).1 + " ("@
                + joined(def.paths, ", "@) + ")"@ + global_clause(def),
            stamp_of(vs, "i:"@ + name),
        ),
    ]
}

/// The line of a vector index. Both options must survive.
pub open spec fn vector_line(
    vs: Map<Seq<char>, SchemaVersion>,
    name: Seq<char>,
    def: VectorIndexView,
) -> Seq<LineView> {
    let (db, bare) = split_name(name);
    seq![
        (
            db,
            "CREATE VECTOR INDEX IF NOT EXISTS "@ + bare + " ON "@ + split_name(def.table).1 + " ("@
                + def.path + ") DIM "@ + decimal(def.dim as nat) + " USING "@ + def.metric + (
            if def.quantized {
                " QUANTIZED"@
            } else {
                ""@
            }) + (if def.embed {
                " EMBED"@
            } else {
                ""@
            }),
            stamp_of(vs, "v:"@ + name),
        ),
    ]
}

/// The line of a search index with the given `WITH` clause.
pub open spec fn search_line(
    vs: Map<Seq<char>, SchemaVersion>,
    name: Seq<char>,
    def: SearchIndexView,
    clause: Seq<char>,
) -> LineView {
    let (db, bare) = split_name(name);
    (
        db,
        "CREATE SEARCH INDEX IF NOT EXISTS "@ + bare + " ON "@ + split_name(def.table).1 + " ("@
            + joined(def.paths, ", "@) + ")"@ + clause,
        stamp_of(vs, "s:"@ + name),
    )
}

/// The lines of the search indexes, each with its `WITH` clause.
pub open spec fn search_lines(
    vs: Map<Seq<char>, SchemaVersion>,
    es: Seq<(String, SearchIndexDef)>,
    clauses: Seq<String>,
) -> Seq<LineView> {
    Seq::new(es.len(), |i: int| search_line(vs, es[i].0@, es[i].1@, clauses[i]@))
}

/// The line of a geo index.
pub open spec fn geo_line(
    vs: Map<Seq<char>, SchemaVersion>,
    name: Seq<char>,
    def: GeoIndexView,
) -> Seq<LineView> {
    let (db, bare) = split_name(name);
    seq![
        (
            db,
            "CREATE GEO INDEX IF NOT EXISTS "@ + bare + " ON "@ + split_name(def.table).1 + " ("@
                + def.path + ")"@,
            stamp_of(vs, "g:"@ + name),
        ),
    ]
}

/// The line of a user.
pub open spec fn user_line(
    vs: Map<Seq<char>, SchemaVersion>,
    name: Seq<char>,
    def: UserView,
) -> Seq<LineView> {
    seq![
        (
            "default"@,
            match def.auth_kind {
                UserAuthKind::Scram => "CREATE USER "@ + name + " VERIFIER '"@ + def.credential
                    + "'"@,
                UserAuthKind::Gssapi => "CREATE USER "@ + name + " GSSAPI"@,
            },
            stamp_of(vs, "usr:"@ + name),
        ),
    ]
}

/// The line of a role.
pub open spec fn role_line(
    vs: Map<Seq<char>, SchemaVersion>,
    name: Seq<char>,
    def: crate::catalog::RoleView,
) -> Seq<LineView> {
    seq![
        (
            "default"@,
            "CREATE ROLE "@ + name + " GRANTS '"@ + role_text(def) + "'"@,
            stamp_of(vs, "rol:"@ + name),
        ),
    ]
}

/// The database and the text of the statement that drops the object with a
/// schema key; nothing for a key of no known kind.
pub open spec fn drop_text(key: Seq<char>) -> Option<(Seq<char>, Seq<char>)> {
    if !key.contains(':') {
        None
    } else {
        let kind = key.take(first_of(key, ':'));
        let name = key.skip(first_of(key, ':') + 1);
        let (db, bare) = split_name(name);
        if kind == "d"@ {
            Some(("default"@, "DROP DATABASE IF EXISTS "@ + name))
        } else if kind == "t"@ {
            Some((db, "DROP TABLE IF EXISTS "@ + bare))
        } else if kind == "i"@ {
            Some((db, "DROP INDEX IF EXISTS "@ + bare))
        } else if kind == "v"@ {
            Some((db, "DROP VECTOR INDEX IF EXISTS "@ + bare))
        } else if kind == "g"@ {
            Some((db, "DROP GEO INDEX IF EXISTS "@ + bare))
        } else if kind == "s"@ {
            Some((db, "DROP SEARCH INDEX IF EXISTS "@ + bare))
        } else if kind == "usr"@ {
            Some(("default"@, "DROP USER IF EXISTS "@ + name))
        } else if kind == "rol"@ {
            Some(("default"@, "DROP ROLE IF EXISTS "@ + name))
        } else {
            None
        }
    }
}

/// The line of a version: a drop for a tombstone, nothing for a live object.
pub open spec fn tombstone_line(key: Seq<char>, v: SchemaVersion) -> Seq<LineView> {
    if !v.dropped {
        Seq::empty()
    } else {
        match drop_text(key) {
            Some((db, sql)) => seq![(db, sql, v.hlc)],
            None => Seq::empty(),
        }
    }
}

/// The lines that make every database, table and index.
pub open spec fn object_lines(c: Catalog, clauses: Seq<String>) -> Seq<LineView> {
    let vs = c@.versions;
    let ts = c@.timeseries;
    flat(c.databases.names.entries@, |n: Seq<char>, _u: ()| database_line(vs, n)) + flat(
        c.tables.entries@,
        |n: Seq<char>, d: TableDef| table_line(vs, n, d@),
    ) + flat(
        c.timeseries.entries@,
        |n: Seq<char>, d: TsTableDef| timeseries_lines(vs, ts, n, d@),
    ) + flat(c.indexes.entries@, |n: Seq<char>, d: IndexDef| index_line(vs, n, d@)) + flat(
        c.vector_indexes.entries@,
        |n: Seq<char>, d: VectorIndexDef| vector_line(vs, n, d@),
    ) + search_lines(vs, c.search_indexes.entries@, clauses) + flat(
        c.geo_indexes.entries@,
        |n: Seq<char>, d: GeoIndexDef| geo_line(vs, n, d@),
    )
}

/// The lines of the users, the roles and the tombstones.
pub open spec fn trailing_lines(c: Catalog) -> Seq<LineView> {
    let vs = c@.versions;
    flat(c.users.entries@, |n: Seq<char>, d: UserDef| user_line(vs, n, d@)) + flat(
        c.auth_roles.entries@,
        |n: Seq<char>, d: AuthRoleDef| role_line(vs, n, d@),
    ) + flat(c.schema_versions.entries@, |n: Seq<char>, d: SchemaVersion| tombstone_line(n, d))
}

/// One more entry of a run.
proof fn lemma_flat_step<D>(
    es: Seq<(String, D)>,
    f: spec_fn(Seq<char>, D) -> Seq<LineView>,
    i: int,
)
    requires
        0 <= i < es.len(),
    ensures
        flat(es.take(i + 1), f) == flat(es.take(i), f) + f(es[i].0@, es[i].1),
{
    assert(es.take(i + 1).drop_last() =~= es.take(i));
    assert(es.take(i + 1).last() == es[i]);
}

/// Appends a line.
fn push_line(out: &mut Vec<SyncLine>, db: &str, sql: String, hlc: Hlc)
    ensures
        line_views(final(out)@) == line_views(old(out)@) + seq![(db@, sql@, hlc)],
{
    out.push((db.to_owned(), sql, hlc));
    proof {
        assert(line_views(out@) =~= line_views(old(out)@) + seq![(db@, sql@, hlc)]);
    }
}

/// Two runs of lines behind each other.
proof fn lemma_lines_assoc(a: Seq<LineView>, b: Seq<LineView>, c: Seq<LineView>)
    ensures
        (a + b) + c == a + (b + c),
{
    assert((a + b) + c =~= a + (b + c));
}

impl Database {
    /// The recorded stamp of a schema object.
    fn stamp(&self, prefix: &str, name: &str) -> (r: Hlc)
        requires
            self.wf(),
        ensures
            r == stamp_of(self@.cat.versions, prefix@ + name@),
    {
        match def_of(&self.catalog.schema_versions, &cat(prefix, name)) {
            Some(v) => v.hlc,
            None => Hlc::min(),
        }
    }

    fn push_databases(&self, out: &mut Vec<SyncLine>)
        requires
            self.wf(),
        ensures
            line_views(final(out)@) == line_views(old(out)@) + flat(
                self.catalog.databases.names.entries@,
                |n: Seq<char>, _u: ()| database_line(self@.cat.versions, n),
            ),
    {
        let ghost es = self.catalog.databases.names.entries@;
        let ghost f = |n: Seq<char>, _u: ()| database_line(self@.cat.versions, n);
        let ghost base = line_views(out@);
        let mut i: usize = 0;
        proof {
            assert(base + flat(es.take(0), f) =~= base);
        }
        while i < self.catalog.databases.names.len()
            invariant
                self.wf(),
                es == self.catalog.databases.names.entries@,
                i <= es.len(),
                f == (|n: Seq<char>, _u: ()| database_line(self@.cat.versions, n)),
                line_views(out@) == base + flat(es.take(i as int), f),
            decreases es.len() - i,
        {
            let db = self.catalog.databases.names.key_at(i).as_str();
            push_line(
                out,
                "default",
                cat("CREATE DATABASE IF NOT EXISTS ", db),
                self.stamp("d:", db),
            );
            proof {
                lemma_flat_step(es, f, i as int);
                lemma_lines_assoc(
                    base,
                    flat(es.take(i as int), f),
                    database_line(self@.cat.versions, db@),
                );
            }
            i = i + 1;
        }
        proof {
            assert(es.take(es.len() as int) =~= es);
        }
    }

    fn push_tables(&self, out: &mut Vec<SyncLine>)
        requires
            self.wf(),
        ensures
            line_views(final(out)@) == line_views(old(out)@) + flat(
                self.catalog.tables.entries@,
                |n: Seq<char>, d: TableDef| table_line(self@.cat.versions, n, d@),
            ),
    {
        let ghost es = self.catalog.tables.entries@;
        let ghost f = |n: Seq<char>, d: TableDef| table_line(self@.cat.versions, n, d@);
        let ghost base = line_views(out@);
        let mut i: usize = 0;
        proof {
            assert(base + flat(es.take(0), f) =~= base);
        }
        while i < self.catalog.tables.len()
            invariant
                self.wf(),
                es == self.catalog.tables.entries@,
                i <= es.len(),
                f == (|n: Seq<char>, d: TableDef| table_line(self@.cat.versions, n, d@)),
                line_views(out@) == base + flat(es.take(i as int), f),
            decreases es.len() - i,
        {
            let name = self.catalog.tables.key_at(i).as_str();
            let def = self.catalog.tables.value_at(i);
            let (db, bare) = split_qualified(name);
            let ghost before = line_views(out@);
            if !starts_with(bare.as_str(), "__gidx__") {
                let mut sql = cat3("CREATE TABLE IF NOT EXISTS ", bare.as_str(), " (PRIMARY KEY (");
                sql.append(join(&def.primary_key, ", ").as_str());
                sql.append("))");
                sql.append(table_with_options(def).as_str());
                push_line(out, db.as_str(), sql, self.stamp("t:", name));
            } else {
                proof {
                    assert(before + Seq::<LineView>::empty() =~= before);
                }
            }
            proof {
                lemma_flat_step(es, f, i as int);
                lemma_lines_assoc(
                    base,
                    flat(es.take(i as int), f),
                    table_line(self@.cat.versions, name@, def@),
                );
            }
            i = i + 1;
        }
        proof {
            assert(es.take(es.len() as int) =~= es);
        }
    }

    fn push_rollups(&self, out: &mut Vec<SyncLine>, source_bare: &str, rollups: &Vec<RollupDef>)
        requires
            self.wf(),
        ensures
            line_views(final(out)@) == line_views(old(out)@) + rollup_lines(
                self@.cat.versions,
                self@.cat.timeseries,
                source_bare@,
                crate::catalog::rollup_views(rollups@),
            ),
    {
        let ghost rs = crate::catalog::rollup_views(rollups@);
        let ghost vs = self@.cat.versions;
        let ghost ts = self@.cat.timeseries;
        let ghost base = line_views(out@);
        let mut i: usize = 0;
        proof {
            assert(base + rollup_lines(vs, ts, source_bare@, rs.take(0)) =~= base);
        }
        while i < rollups.len()
            invariant
                self.wf(),
                rs == crate::catalog::rollup_views(rollups@),
                vs == self@.cat.versions,
                ts == self@.cat.timeseries,
                i <= rollups@.len(),
                line_views(out@) == base + rollup_lines(
                    vs,
                    ts,
                    source_bare@,
                    rs.take(i as int),
                ),
            decreases rollups@.len() - i,
        {
            let r = &rollups[i];
            let ghost before = line_views(out@);
            match def_of(&self.catalog.timeseries, &r.name) {
                Some(rdef) => {
                    let (rdb, rbare) = split_qualified(r.name.as_str());
                    push_line(
                        out,
                        rdb.as_str(),
                        ts_rollup_ddl(rbare.as_str(), source_bare, r.bucket_ms, rdef),
                        self.stamp("t:", r.name.as_str()),
                    );
                },
                None => {
                    proof {
                        assert(before + Seq::<LineView>::empty() =~= before);
                    }
                },
            }
            proof {
                assert(rs.take(i + 1).drop_last() =~= rs.take(i as int));
                assert(rs.take(i + 1).last() == r@);
                lemma_lines_assoc(
                    base,
                    rollup_lines(vs, ts, source_bare@, rs.take(i as int)),
                    rollup_line(vs, ts, source_bare@, r@),
                );
            }
            i = i + 1;
        }
        proof {
            assert(rs.take(rs.len() as int) =~= rs);
        }
    }

    fn push_timeseries(&self, out: &mut Vec<SyncLine>)
        requires
            self.wf(),
        ensures
            line_views(final(out)@) == line_views(old(out)@) + flat(
                self.catalog.timeseries.entries@,
                |n: Seq<char>, d: TsTableDef|
                    timeseries_lines(self@.cat.versions, self@.cat.timeseries, n, d@),
            ),
    {
        let ghost es = self.catalog.timeseries.entries@;
        let ghost vs = self@.cat.versions;
        let ghost ts = self@.cat.timeseries;
        let ghost f = |n: Seq<char>, d: TsTableDef|
            timeseries_lines(self@.cat.versions, self@.cat.timeseries, n, d@);
        let ghost base = line_views(out@);
        let mut i: usize = 0;
        proof {
            assert(base + flat(es.take(0), f) =~= base);
        }
        while i < self.catalog.timeseries.len()
            invariant
                self.wf(),
                es == self.catalog.timeseries.entries@,
                vs == self@.cat.versions,
                ts == self@.cat.timeseries,
                i <= es.len(),
                f == (|n: Seq<char>, d: TsTableDef|
                    timeseries_lines(self@.cat.versions, self@.cat.timeseries, n, d@)),
                line_views(out@) == base + flat(es.take(i as int), f),
            decreases es.len() - i,
        {
            let name = self.catalog.timeseries.key_at(i).as_str();
            let def = self.catalog.timeseries.value_at(i);
            let ghost before = line_views(out@);
            if def.rollup_of.is_none() {
                let (db, bare) = split_qualified(name);
                push_line(
                    out,
                    db.as_str(),
                    ts_create_ddl(bare.as_str(), def),
                    self.stamp("t:", name),
                );
                self.push_rollups(out, bare.as_str(), &def.rollups);
                proof {
                    lemma_lines_assoc(
                        before,
                        seq![(db@, ts_create_text(bare@, def@), stamp_of(vs, "t:"@ + name@))],
                        rollup_lines(vs, ts, bare@, def@.rollups),
                    );
                }
            } else {
                proof {
                    assert(before + Seq::<LineView>::empty() =~= before);
                }
            }
            proof {
                lemma_flat_step(es, f, i as int);
                lemma_lines_assoc(
                    base,
                    flat(es.take(i as int), f),
                    timeseries_lines(vs, ts, name@, def@),
                );
            }
            i = i + 1;
        }
        proof {
            assert(es.take(es.len() as int) =~= es);
        }
    }

    fn push_indexes(&self, out: &mut Vec<SyncLine>)
        requires
            self.wf(),
        ensures
            line_views(final(out)@) == line_views(old(out)@) + flat(
                self.catalog.indexes.entries@,
                |n: Seq<char>, d: IndexDef| index_line(self@.cat.versions, n, d@),
            ),
    {
        let ghost es = self.catalog.indexes.entries@;
        let ghost f = |n: Seq<char>, d: IndexDef| index_line(self@.cat.versions, n, d@);
        let ghost base = line_views(out@);
        let mut i: usize = 0;
        proof {
            assert(base + flat(es.take(0), f) =~= base);
        }
        while i < self.catalog.indexes.len()
            invariant
                self.wf(),
                es == self.catalog.indexes.entries@,
                i <= es.len(),
                f == (|n: Seq<char>, d: IndexDef| index_line(self@.cat.versions, n, d@)),
                line_views(out@) == base + flat(es.take(i as int), f),
            decreases es.len() - i,
        {
            let name = self.catalog.indexes.key_at(i).as_str();
            let def = self.catalog.indexes.value_at(i);
            let (db, bare) = split_qualified(name);
            let table = split_qualified(def.table.as_str()).1;
            let mut sql = cat3("CREATE INDEX IF NOT EXISTS ", bare.as_str(), " ON ");
            sql.append(table.as_str());
            sql.append(" (");
            sql.append(join(&def.paths, ", ").as_str());
            sql.append(")");
            sql.append(
                if !def.global {
                    ""
                } else if def.building {
                    " WITH (global = true)"
                } else {
                    " WITH (global = true, ready = true)"
                },
            );
            push_line(out, db.as_str(), sql, self.stamp("i:", name));
            proof {
                lemma_flat_step(es, f, i as int);
                lemma_lines_assoc(
                    base,
                    flat(es.take(i as int), f),
                    index_line(self@.cat.versions, name@, def@),
                );
            }
            i = i + 1;
        }
        proof {
            assert(es.take(es.len() as int) =~= es);
        }
    }

    fn push_vectors(&self, out: &mut Vec<SyncLine>)
        requires
            self.wf(),
        ensures
            line_views(final(out)@) == line_views(old(out)@) + flat(
                self.catalog.vector_indexes.entries@,
                |n: Seq<char>, d: VectorIndexDef| vector_line(self@.cat.versions, n, d@),
            ),
    {
        let ghost es = self.catalog.vector_indexes.entries@;
        let ghost f = |n: Seq<char>, d: VectorIndexDef| vector_line(self@.cat.versions, n, d@);
        let ghost base = line_views(out@);
        let mut i: usize = 0;
        proof {
            assert(base + flat(es.take(0), f) =~= base);
        }
        while i < self.catalog.vector_indexes.len()
            invariant
                self.wf(),
                es == self.catalog.vector_indexes.entries@,
                i <= es.len(),
                f == (|n: Seq<char>, d: VectorIndexDef| vector_line(self@.cat.versions, n, d@)),
                line_views(out@) == base + flat(es.take(i as int), f),
            decreases es.len() - i,
        {
            let name = self.catalog.vector_indexes.key_at(i).as_str();
            let def = self.catalog.vector_indexes.value_at(i);
            let (db, bare) = split_qualified(name);
            let table = split_qualified(def.table.as_str()).1;
            let mut sql = cat3("CREATE VECTOR INDEX IF NOT EXISTS ", bare.as_str(), " ON ");
            sql.append(table.as_str());
            sql.append(" (");
            sql.append(def.path.as_str());
            sql.append(") DIM ");
            sql.append(decimal_of(def.dim as u64).as_str());
            sql.append(" USING ");
            sql.append(def.metric.as_str());
            sql.append(
                if def.quantized {
                    " QUANTIZED"
                } else {
                    ""
                },
            );
            sql.append(
                if def.embed {
                    " EMBED"
                } else {
                    ""
                },
            );
            push_line(out, db.as_str(), sql, self.stamp("v:", name));
            proof {
                lemma_flat_step(es, f, i as int);
                lemma_lines_assoc(
                    base,
                    flat(es.take(i as int), f),
                    vector_line(self@.cat.versions, name@, def@),
                );
            }
            i = i + 1;
        }
        proof {
            assert(es.take(es.len() as int) =~= es);
        }
    }

    fn push_searches(&self, out: &mut Vec<SyncLine>, clauses: &Vec<String>)
        requires
            self.wf(),
            clauses@.len() == self.catalog.search_indexes.entries@.len(),
        ensures
            line_views(final(out)@) == line_views(old(out)@) + search_lines(
                self@.cat.versions,
                self.catalog.search_indexes.entries@,
                clauses@,
            ),
    {
        let ghost es = self.catalog.search_indexes.entries@;
        let ghost vs = self@.cat.versions;
        let ghost all = search_lines(vs, es, clauses@);
        let ghost base = line_views(out@);
        let mut i: usize = 0;
        proof {
            assert(base + all.take(0) =~= base);
        }
        while i < self.catalog.search_indexes.len()
            invariant
                self.wf(),
                es == self.catalog.search_indexes.entries@,
                vs == self@.cat.versions,
                all == search_lines(vs, es, clauses@),
                clauses@.len() == es.len(),
                i <= es.len(),
                line_views(out@) == base + all.take(i as int),
            decreases es.len() - i,
        {
            let name = self.catalog.search_indexes.key_at(i).as_str();
            let def = self.catalog.search_indexes.value_at(i);
            let (db, bare) = split_qualified(name);
            let table = split_qualified(def.table.as_str()).1;
            let mut sql = cat3("CREATE SEARCH INDEX IF NOT EXISTS ", bare.as_str(), " ON ");
            sql.append(table.as_str());
            sql.append(" (");
            sql.append(join(&def.paths, ", ").as_str());
            sql.append(")");
            sql.append(clauses[i].as_str());
            push_line(out, db.as_str(), sql, self.stamp("s:", name));
            proof {
                assert(base + all.take(i + 1) =~= (base + all.take(i as int)) + seq![all[i as int]]);
            }
            i = i + 1;
        }
        proof {
            assert(all.take(all.len() as int) =~= all);
        }
    }

    fn push_geos(&self, out: &mut Vec<SyncLine>)
        requires
            self.wf(),
        ensures
            line_views(final(out)@) == line_views(old(out)@) + flat(
                self.catalog.geo_indexes.entries@,
                |n: Seq<char>, d: GeoIndexDef| geo_line(self@.cat.versions, n, d@),
            ),
    {
        let ghost es = self.catalog.geo_indexes.entries@;
        let ghost f = |n: Seq<char>, d: GeoIndexDef| geo_line(self@.cat.versions, n, d@);
        let ghost base = line_views(out@);
        let mut i: usize = 0;
        proof {
            assert(base + flat(es.take(0), f) =~= base);
        }
        while i < self.catalog.geo_indexes.len()
            invariant
                self.wf(),
                es == self.catalog.geo_indexes.entries@,
                i <= es.len(),
                f == (|n: Seq<char>, d: GeoIndexDef| geo_line(self@.cat.versions, n, d@)),
                line_views(out@) == base + flat(es.take(i as int), f),
            decreases es.len() - i,
        {
            let name = self.catalog.geo_indexes.key_at(i).as_str();
            let def = self.catalog.geo_indexes.value_at(i);
            let (db, bare) = split_qualified(name);
            let table = split_qualified(def.table.as_str()).1;
            let mut sql = cat3("CREATE GEO INDEX IF NOT EXISTS ", bare.as_str(), " ON ");
            sql.append(table.as_str());
            sql.append(" (");
            sql.append(def.path.as_str());
            sql.append(")");
            push_line(out, db.as_str(), sql, self.stamp("g:", name));
            proof {
                lemma_flat_step(es, f, i as int);
                lemma_lines_assoc(
                    base,
                    flat(es.take(i as int), f),
                    geo_line(self@.cat.versions, name@, def@),
                );
            }
            i = i + 1;
        }
        proof {
            assert(es.take(es.len() as int) =~= es);
        }
    }

    fn push_users(&self, out: &mut Vec<SyncLine>)
        requires
            self.wf(),
        ensures
            line_views(final(out)@) == line_views(old(out)@) + flat(
                self.catalog.users.entries@,
                |n: Seq<char>, d: UserDef| user_line(self@.cat.versions, n, d@),
            ),
    {
        let ghost es = self.catalog.users.entries@;
        let ghost f = |n: Seq<char>, d: UserDef| user_line(self@.cat.versions, n, d@);
        let ghost base = line_views(out@);
        let mut i: usize = 0;
        proof {
            assert(base + flat(es.take(0), f) =~= base);
        }
        while i < self.catalog.users.len()
            invariant
                self.wf(),
                es == self.catalog.users.entries@,
                i <= es.len(),
                f == (|n: Seq<char>, d: UserDef| user_line(self@.cat.versions, n, d@)),
                line_views(out@) == base + flat(es.take(i as int), f),
            decreases es.len() - i,
        {
            let name = self.catalog.users.key_at(i).as_str();
            let def = self.catalog.users.value_at(i);
            let sql = match def.auth_kind {
                UserAuthKind::Scram => {
                    let head = cat3("CREATE USER ", name, " VERIFIER '");
                    cat3(head.as_str(), def.credential.as_str(), "'")
                },
                UserAuthKind::Gssapi => cat3("CREATE USER ", name, " GSSAPI"),
            };
            push_line(out, "default", sql, self.stamp("usr:", name));
            proof {
                lemma_flat_step(es, f, i as int);
                lemma_lines_assoc(
                    base,
                    flat(es.take(i as int), f),
                    user_line(self@.cat.versions, name@, def@),
                );
            }
            i = i + 1;
        }
        proof {
            assert(es.take(es.len() as int) =~= es);
        }
    }

    fn push_roles(&self, out: &mut Vec<SyncLine>)
        requires
            self.wf(),
        ensures
            line_views(final(out)@) == line_views(old(out)@) + flat(
                self.catalog.auth_roles.entries@,
                |n: Seq<char>, d: AuthRoleDef| role_line(self@.cat.versions, n, d@),
            ),
    {
        let ghost es = self.catalog.auth_roles.entries@;
        let ghost f = |n: Seq<char>, d: AuthRoleDef| role_line(self@.cat.versions, n, d@);
        let ghost base = line_views(out@);
        let mut i: usize = 0;
        proof {
            assert(base + flat(es.take(0), f) =~= base);
        }
        while i < self.catalog.auth_roles.len()
            invariant
                self.wf(),
                es == self.catalog.auth_roles.entries@,
                i <= es.len(),
                f == (|n: Seq<char>, d: AuthRoleDef| role_line(self@.cat.versions, n, d@)),
                line_views(out@) == base + flat(es.take(i as int), f),
            decreases es.len() - i,
        {
            let name = self.catalog.auth_roles.key_at(i).as_str();
            let def = self.catalog.auth_roles.value_at(i);
            let head = cat3("CREATE ROLE ", name, " GRANTS '");
            let sql = cat3(head.as_str(), encode_role_state(def).as_str(), "'");
            push_line(out, "default", sql, self.stamp("rol:", name));
            proof {
                lemma_flat_step(es, f, i as int);
                lemma_lines_assoc(
                    base,
                    flat(es.take(i as int), f),
                    role_line(self@.cat.versions, name@, def@),
                );
            }
            i = i + 1;
        }
        proof {
            assert(es.take(es.len() as int) =~= es);
        }
    }

    fn push_tombstones(&self, out: &mut Vec<SyncLine>)
        requires
            self.wf(),
        ensures
            line_views(final(out)@) == line_views(old(out)@) + flat(
                self.catalog.schema_versions.entries@,
                |n: Seq<char>, d: SchemaVersion| tombstone_line(n, d),
            ),
    {
        let ghost es = self.catalog.schema_versions.entries@;
        let ghost f = |n: Seq<char>, d: SchemaVersion| tombstone_line(n, d);
        let ghost base = line_views(out@);
        let mut i: usize = 0;
        proof {
            assert(base + flat(es.take(0), f) =~= base);
        }
        while i < self.catalog.schema_versions.len()
            invariant
                self.wf(),
                es == self.catalog.schema_versions.entries@,
                i <= es.len(),
                f == (|n: Seq<char>, d: SchemaVersion| tombstone_line(n, d)),
                line_views(out@) == base + flat(es.take(i as int), f),
            decreases es.len() - i,
        {
            let key = self.catalog.schema_versions.key_at(i).as_str();
            let v = *self.catalog.schema_versions.value_at(i);
            let ghost before = line_views(out@);
            proof {
                assert(before + Seq::<LineView>::empty() =~= before);
            }
            if v.dropped {
                if let Some((db, sql)) = drop_statement(key) {
                    push_line(out, db.as_str(), sql, v.hlc);
                }
            }
            proof {
                lemma_flat_step(es, f, i as int);
                lemma_lines_assoc(base, flat(es.take(i as int), f), tombstone_line(key@, v));
            }
            i = i + 1;
        }
        proof {
            assert(es.take(es.len() as int) =~= es);
        }
    }

    fn push_objects(&self, out: &mut Vec<SyncLine>, clauses: &Vec<String>)
        requires
            self.wf(),
            clauses@.len() == self.catalog.search_indexes.entries@.len(),
            old(out)@.len() == 0,
        ensures
            line_views(final(out)@) == object_lines(self.catalog, clauses@),
    {
        self.push_databases(out);
        self.push_tables(out);
        self.push_timeseries(out);
        self.push_indexes(out);
        self.push_vectors(out);
        self.push_searches(out, clauses);
        self.push_geos(out);
        proof {
            assert(line_views(old(out)@) =~= Seq::<LineView>::empty());
            let a = flat(
                self.catalog.databases.names.entries@,
                |n: Seq<char>, _u: ()| database_line(self@.cat.versions, n),
            );
            assert(Seq::<LineView>::empty() + a =~= a);
            assert(self.catalog@ == self@.cat);
        }
    }

    /// The schema for last-writer-wins replication: every live object as a
    /// `CREATE ... IF NOT EXISTS` and every dropped one as a `DROP ... IF
    /// EXISTS`, each with its version stamp. `clauses` are the search indexes'
    /// rendered `WITH` clauses, in name order.
    pub fn schema_sync(&self, clauses: &Vec<String>) -> (r: Vec<SyncLine>)
        requires
            self.wf(),
            clauses@.len() == self.catalog.search_indexes.entries@.len(),
        ensures
            line_views(r@) == object_lines(self.catalog, clauses@) + trailing_lines(self.catalog),
    {
        let mut out: Vec<SyncLine> = Vec::new();
        self.push_objects(&mut out, clauses);
        let ghost objects = line_views(out@);
        self.push_users(&mut out);
        self.push_roles(&mut out);
        self.push_tombstones(&mut out);
        proof {
            let vs = self@.cat.versions;
            let a = flat(
                self.catalog.users.entries@,
                |n: Seq<char>, d: UserDef| user_line(vs, n, d@),
            );
            let b = flat(
                self.catalog.auth_roles.entries@,
                |n: Seq<char>, d: AuthRoleDef| role_line(vs, n, d@),
            );
            let c = flat(
                self.catalog.schema_versions.entries@,
                |n: Seq<char>, d: SchemaVersion| tombstone_line(n, d),
            );
            assert(self.catalog@ == self@.cat);
            assert(line_views(out@) == objects + a + b + c);
            assert(objects + a + b + c =~= objects + (a + b + c));
            assert(trailing_lines(self.catalog) == a + b + c);
        }
        out
    }

    /// The statements that make every database, table and index anew, each
    /// with the database to run it in. Databases come first.
    pub fn schema_ddl(&self, clauses: &Vec<String>) -> (r: Vec<(String, String)>)
        requires
            self.wf(),
            clauses@.len() == self.catalog.search_indexes.entries@.len(),
        ensures
            r@.len() == object_lines(self.catalog, clauses@).len(),
            forall|i: int|
                0 <= i < r@.len() ==> (#[trigger] r@[i]).0@ == object_lines(
                    self.catalog,
                    clauses@,
                )[i].0 && r@[i].1@ == object_lines(self.catalog, clauses@)[i].1,
    {
        let mut lines: Vec<SyncLine> = Vec::new();
        self.push_objects(&mut lines, clauses);
        let mut out: Vec<(String, String)> = Vec::new();
        let mut i: usize = 0;
        let ghost all = object_lines(self.catalog, clauses@);
        while i < lines.len()
            invariant
                i <= lines@.len(),
                line_views(lines@) == all,
                lines@.len() == all.len(),
                out@.len() == i,
                forall|k: int|
                    0 <= k < i ==> (#[trigger] out@[k]).0@ == all[k].0 && out@[k].1@ == all[k].1,
            decreases lines@.len() - i,
        {
            proof {
                assert(line_views(lines@)[i as int] == all[i as int]);
            }
            out.push((lines[i].0.clone(), lines[i].1.clone()));
            i = i + 1;
        }
        out
    }
}

/// The database and the text of the statement that drops the object with a
/// schema key.
fn drop_statement(key: &str) -> (r: Option<(String, String)>)
    ensures
        r is Some <==> drop_text(key@) is Some,
        r matches Some((db, sql)) ==> drop_text(key@) == Some((db@, sql@)),
{
    proof {
        lemma_first_of(key@, ':');
    }
    let (kind, name) = match split_once(key, ':') {
        Some(parts) => parts,
        None => {
            return None;
        },
    };
    let (db, bare) = split_qualified(name.as_str());
    let k = kind.as_str();
    if str_eq(k, "d") {
        Some(("default".to_owned(), cat("DROP DATABASE IF EXISTS ", name.as_str())))
    } else if str_eq(k, "t") {
        Some((db, cat("DROP TABLE IF EXISTS ", bare.as_str())))
    } else if str_eq(k, "i") {
        Some((db, cat("DROP INDEX IF EXISTS ", bare.as_str())))
    } else if str_eq(k, "v") {
        Some((db, cat("DROP VECTOR INDEX IF EXISTS ", bare.as_str())))
    } else if str_eq(k, "g") {
        Some((db, cat("DROP GEO INDEX IF EXISTS ", bare.as_str())))
    } else if str_eq(k, "s") {
        Some((db, cat("DROP SEARCH INDEX IF EXISTS ", bare.as_str())))
    } else if str_eq(k, "usr") {
        Some(("default".to_owned(), cat("DROP USER IF EXISTS ", name.as_str())))
    } else if str_eq(k, "rol") {
        Some(("default".to_owned(), cat("DROP ROLE IF EXISTS ", name.as_str())))
    } else {
        None
    }
}

/// Every tombstoned table is replayed as a drop at its stamp, so a node that
/// missed the drop stops holding the table.
pub proof fn tombstone_is_replayed_as_a_drop(name: Seq<char>, v: SchemaVersion)
    requires
        v.dropped,
    ensures
        tombstone_line("t:"@ + name, v) == seq![
            (split_name(name).0, "DROP TABLE IF EXISTS "@ + split_name(name).1, v.hlc),
        ],
{
    reveal_strlit("t:");
    reveal_strlit("t");
    reveal_strlit("d");
    let key = "t:"@ + name;
    assert(key[0] == 't' && key[1] == ':');
    crate::text::lemma_first_of_is(key, ':', 1);
    assert(key.contains(':'));
    assert(key.take(1) =~= "t"@);
    assert(key.skip(2) =~= name);
    assert("d"@[0] == 'd');
}

} // verus!
