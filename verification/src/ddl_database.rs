//! Creating and dropping databases under last-writer-wins.

use vstd::prelude::*;

use crate::catalog::advances;
use crate::catalog::record_schema;
use crate::catalog::schema_advances;
use crate::catalog::CatalogView;
use crate::database::verdict;
use crate::database::Database;
use crate::database::DbView;
use crate::database::DdlOutcome;
use crate::ddl_index::drop_geo_index_step;
use crate::ddl_index::drop_index_step;
use crate::ddl_search::drop_search_index_step;
use crate::ddl_table::drop_table_step;
use crate::ddl_table::known_database;
use crate::ddl_table::reports_drop;
use crate::ddl_table::stamped;
use crate::ddl_table::DropReport;
use crate::ddl_vector::drop_vector_index_step;
use crate::error::constraint;
use crate::error::constraint_about;
use crate::error::debug_quoted;
use crate::error::quoted;
use crate::error::EngineError;
use crate::error::ErrorView;
use crate::hlc::Hlc;
use crate::namespace::belongs_to;
use crate::namespace::in_database;
use crate::projection::NameSet;
use crate::sorted_map::ascending;
use crate::sorted_map::entry_map;
use crate::sorted_map::holds_key;
use crate::sorted_map::lemma_entry_at;
use crate::sorted_map::place_of;
use crate::sorted_map::SortKey;
use crate::sorted_map::SortedMap;
use crate::text::cat;
use crate::text::lemma_seq_lt_irrefl;
use crate::text::lemma_seq_lt_trans;
use crate::text::seq_lt;
use crate::text::str_eq;
use crate::text::views;

verus! {

/// `CREATE DATABASE`: what it answers and the catalog it leaves.
pub open spec fn create_database_step(
    v: CatalogView,
    name: Seq<char>,
    name_ok: bool,
    if_not_exists: bool,
    hlc: Hlc,
) -> (Result<DdlOutcome, ErrorView>, CatalogView) {
    let key = "d:"@ + name;
    if !name_ok {
        (
            Err(
                ErrorView::Constraint(
                    "invalid database name "@ + debug_quoted(name)
                        + ": use letters, digits, '_' or '-' (max 64 chars)"@,
                ),
            ),
            v,
        )
    } else if !advances(v.versions, key, hlc) {
        (Ok(DdlOutcome::Stale), v)
    } else if known_database(v, name) {
        if if_not_exists {
            (Ok(DdlOutcome::Recorded), stamped(v, key, hlc, false))
        } else {
            (Err(ErrorView::DatabaseExists(name)), v)
        }
    } else {
        (
            Ok(DdlOutcome::Applied),
            stamped(CatalogView { databases: v.databases.insert(name), ..v }, key, hlc, false),
        )
    }
}

/// Names in ascending order.
pub open spec fn names_ascend(names: Seq<Seq<char>>) -> bool {
    forall|i: int, j: int|
        0 <= i < j < names.len() ==> seq_lt(#[trigger] names[i], #[trigger] names[j])
}

/// Whether `names` lists, in order, exactly the members of database `db`.
pub open spec fn lists_members(names: Seq<Seq<char>>, all: Set<Seq<char>>, db: Seq<char>) -> bool {
    names_ascend(names) && forall|n: Seq<char>| #[trigger]
        names.contains(n) <==> all.contains(n) && in_database(n, db)
}

/// The members of database `db`, in name order.
pub open spec fn members(all: Set<Seq<char>>, db: Seq<char>) -> Seq<Seq<char>> {
    choose|names: Seq<Seq<char>>| lists_members(names, all, db)
}

/// The stamps of a statement that takes other objects with it: its own, and a
/// fresh one for each drop. Where those run out, as for a replicated statement,
/// a drop has the statement's own.
pub struct DropStamps {
    pub own: Hlc,
    pub fresh: Vec<Hlc>,
}

pub struct StampsView {
    pub own: Hlc,
    pub fresh: Seq<Hlc>,
}

impl StampsView {
    /// The stamp of the drop that comes at a place.
    pub open spec fn at(self, k: int) -> Hlc {
        if 0 <= k < self.fresh.len() {
            self.fresh[k]
        } else {
            self.own
        }
    }
}

impl View for DropStamps {
    type V = StampsView;

    open spec fn view(&self) -> StampsView {
        StampsView { own: self.own, fresh: self.fresh@ }
    }
}

impl DropStamps {
    /// The stamp of the drop that comes at a place.
    pub fn at(&self, k: u128) -> (r: Hlc)
        ensures
            r == self@.at(k as int),
    {
        if k < self.fresh.len() as u128 {
            self.fresh[k as usize]
        } else {
            self.own
        }
    }
}

/// The database after `DROP TABLE IF EXISTS` of each name in turn, the first
/// one at the place `from` among the drops.
pub open spec fn tables_dropped(v: DbView, names: Seq<Seq<char>>, at: StampsView, from: int) -> DbView
    decreases names.len(),
{
    if names.len() == 0 {
        v
    } else {
        drop_table_step(
            tables_dropped(v, names.drop_last(), at, from),
            names.last(),
            true,
            at.at(from + names.len() - 1),
        ).1
    }
}

/// The database after `DROP VECTOR INDEX IF EXISTS` of each name in turn.
pub open spec fn vectors_dropped(
    v: DbView,
    names: Seq<Seq<char>>,
    at: StampsView,
    from: int,
) -> DbView
    decreases names.len(),
{
    if names.len() == 0 {
        v
    } else {
        drop_vector_index_step(
            vectors_dropped(v, names.drop_last(), at, from),
            names.last(),
            true,
            at.at(from + names.len() - 1),
        ).1
    }
}

/// The catalog after `DROP SEARCH INDEX IF EXISTS` of each name in turn.
pub open spec fn searches_dropped(
    v: CatalogView,
    names: Seq<Seq<char>>,
    at: StampsView,
    from: int,
) -> CatalogView
    decreases names.len(),
{
    if names.len() == 0 {
        v
    } else {
        drop_search_index_step(
            searches_dropped(v, names.drop_last(), at, from),
            names.last(),
            true,
            at.at(from + names.len() - 1),
        ).1
    }
}

/// The catalog after `DROP INDEX IF EXISTS` of each name in turn.
pub open spec fn indexes_dropped(
    v: CatalogView,
    names: Seq<Seq<char>>,
    at: StampsView,
    from: int,
) -> CatalogView
    decreases names.len(),
{
    if names.len() == 0 {
        v
    } else {
        drop_index_step(
            indexes_dropped(v, names.drop_last(), at, from),
            names.last(),
            true,
            at.at(from + names.len() - 1),
        ).1
    }
}

/// The database after `DROP GEO INDEX IF EXISTS` of each name in turn.
pub open spec fn geos_dropped(
    v: DbView,
    names: Seq<Seq<char>>,
    at: StampsView,
    from: int,
) -> DbView
    decreases names.len(),
{
    if names.len() == 0 {
        v
    } else {
        drop_geo_index_step(
            geos_dropped(v, names.drop_last(), at, from),
            names.last(),
            true,
            at.at(from + names.len() - 1),
        ).1
    }
}

/// A database without its member objects: every table of either sort with what
/// hangs on it, then the vector, search, secondary and geo indexes that are
/// left.
pub open spec fn contents_dropped(v: DbView, db: Seq<char>, at: StampsView) -> DbView {
    let ts = members(v.cat.tables.dom(), db);
    let t = tables_dropped(v, ts, at, 0);
    let ss = members(t.cat.timeseries.dom(), db);
    let n = ts.len() as int;
    let a = tables_dropped(t, ss, at, n);
    let vs = members(a.cat.vector_indexes.dom(), db);
    let n = n + ss.len();
    let b = vectors_dropped(a, vs, at, n);
    let fs = members(b.cat.search_indexes.dom(), db);
    let n = n + vs.len();
    let c = searches_dropped(b.cat, fs, at, n);
    let is = members(c.indexes.dom(), db);
    let n = n + fs.len();
    let d = DbView { cat: indexes_dropped(c, is, at, n), ..b };
    geos_dropped(d, members(d.cat.geo_indexes.dom(), db), at, n + is.len())
}

/// What a `DROP DATABASE` took out of the catalog, for the files to follow.
pub struct DatabaseDrop {
    pub outcome: DdlOutcome,
    /// One report for each table of the database, in name order.
    pub tables: Vec<DropReport>,
    /// One report for each time-series table that was left, in name order.
    pub series: Vec<DropReport>,
    /// The vector indexes that were left after the tables went.
    pub vector_indexes: Vec<String>,
    /// The search indexes that were left.
    pub search_indexes: Vec<String>,
    /// The secondary indexes that were left.
    pub indexes: Vec<String>,
    /// The geo indexes that were left.
    pub geo_indexes: Vec<String>,
}

/// Whether reports are those of these drops, in turn.
pub open spec fn reports_drops(
    ds: Seq<DropReport>,
    v: DbView,
    names: Seq<Seq<char>>,
    at: StampsView,
    from: int,
) -> bool {
    &&& ds.len() == names.len()
    &&& forall|i: int|
        0 <= i < names.len() ==> reports_drop(
            #[trigger] ds[i],
            tables_dropped(v, names.take(i), at, from).cat,
            names[i],
        )
}

/// Whether a report names what an effective `DROP DATABASE db` goes through.
pub open spec fn reports_database_drop(
    d: DatabaseDrop,
    v: DbView,
    db: Seq<char>,
    at: StampsView,
) -> bool {
    let ts = members(v.cat.tables.dom(), db);
    let t = tables_dropped(v, ts, at, 0);
    let ss = members(t.cat.timeseries.dom(), db);
    let n = ts.len() as int;
    let a = tables_dropped(t, ss, at, n);
    let vs = members(a.cat.vector_indexes.dom(), db);
    let n = n + ss.len();
    let b = vectors_dropped(a, vs, at, n);
    let fs = members(b.cat.search_indexes.dom(), db);
    let n = n + vs.len();
    let c = searches_dropped(b.cat, fs, at, n);
    let is = members(c.indexes.dom(), db);
    let e = indexes_dropped(c, is, at, n + fs.len());
    &&& reports_drops(d.tables@, v, ts, at, 0)
    &&& reports_drops(d.series@, t, ss, at, ts.len() as int)
    &&& views(d.vector_indexes@) == vs
    &&& views(d.search_indexes@) == fs
    &&& views(d.indexes@) == is
    &&& views(d.geo_indexes@) == members(e.geo_indexes.dom(), db)
}

/// `DROP DATABASE`: what it answers and the database it leaves. The tombstone
/// is recorded even where the database is absent, so that a stale create
/// cannot bring it back.
pub open spec fn drop_database_step(
    v: DbView,
    name: Seq<char>,
    if_exists: bool,
    at: StampsView,
) -> (Result<DdlOutcome, ErrorView>, DbView) {
    let hlc = at.own;
    let key = "d:"@ + name;
    if name == "default"@ {
        (Err(ErrorView::Constraint("cannot drop the default database"@)), v)
    } else if !advances(v.cat.versions, key, hlc) {
        (Ok(DdlOutcome::Stale), v)
    } else if !v.cat.databases.contains(name) {
        if if_exists {
            (Ok(DdlOutcome::Recorded), DbView { cat: stamped(v.cat, key, hlc, true), ..v })
        } else {
            (Err(ErrorView::DatabaseNotFound(name)), v)
        }
    } else {
        let w = contents_dropped(v, name, at);
        (
            Ok(DdlOutcome::Applied),
            DbView {
                cat: stamped(
                    CatalogView { databases: w.cat.databases.remove(name), ..w.cat },
                    key,
                    hlc,
                    true,
                ),
                ..w
            },
        )
    }
}

/// Two ascending lists of the same names are one list.
pub proof fn lemma_ascending_unique(a: Seq<Seq<char>>, b: Seq<Seq<char>>)
    requires
        names_ascend(a),
        names_ascend(b),
        forall|n: Seq<char>| #[trigger] a.contains(n) <==> b.contains(n),
    ensures
        a == b,
    decreases a.len(),
{
    if a.len() == 0 {
        if b.len() > 0 {
            assert(b.contains(b[0]));
            assert(a.contains(b[0]));
        }
        assert(a =~= b);
    } else {
        assert(a.contains(a.last()));
        assert(b.contains(a.last()));
        let bi = choose|i: int| 0 <= i < b.len() && b[i] == a.last();
        assert(b.contains(b.last()));
        assert(a.contains(b.last()));
        let ai = choose|i: int| 0 <= i < a.len() && a[i] == b.last();
        let x = a.last();
        let y = b.last();
        if x != y {
            assert(ai < a.len() - 1);
            assert(seq_lt(a[ai], a[a.len() - 1]));
            assert(bi < b.len() - 1);
            assert(seq_lt(b[bi], b[b.len() - 1]));
            lemma_seq_lt_trans(x, y, x);
            lemma_seq_lt_irrefl(x);
        }
        let a0 = a.drop_last();
        let b0 = b.drop_last();
        assert forall|n: Seq<char>| #[trigger] a0.contains(n) <==> b0.contains(n) by {
            lemma_drop_last_contains(a, n);
            lemma_drop_last_contains(b, n);
        }
        lemma_ascending_unique(a0, b0);
        assert(a =~= a0.push(x));
        assert(b =~= b0.push(y));
    }
}

proof fn lemma_drop_last_contains(a: Seq<Seq<char>>, n: Seq<char>)
    requires
        names_ascend(a),
        a.len() > 0,
    ensures
        a.drop_last().contains(n) <==> a.contains(n) && n != a.last(),
{
    let a0 = a.drop_last();
    if a0.contains(n) {
        let i = choose|i: int| 0 <= i < a0.len() && a0[i] == n;
        assert(a[i] == n);
        assert(seq_lt(a[i], a[a.len() - 1]));
        lemma_seq_lt_irrefl(n);
    }
    if a.contains(n) && n != a.last() {
        let i = choose|i: int| 0 <= i < a.len() && a[i] == n;
        assert(a0[i] == n);
    }
}

/// The names of a map that belong to database `db`, in order.
pub fn names_in<D>(m: &SortedMap<String, D>, db: &str) -> (r: Vec<String>)
    requires
        m.wf(),
    ensures
        lists_members(views(r@), m@.dom(), db@),
        views(r@) == members(m@.dom(), db@),
{
    let mut out: Vec<String> = Vec::new();
    let mut i: usize = 0;
    let ghost es = m.entries@;
    while i < m.len()
        invariant
            m.wf(),
            es == m.entries@,
            i <= es.len(),
            names_ascend(views(out@)),
            forall|k: int|
                0 <= k < out@.len() ==> exists|j: int|
                    0 <= j < i && (#[trigger] es[j]).0@ == (#[trigger] out@[k])@,
            forall|n: Seq<char>| #[trigger]
                views(out@).contains(n) <==> in_database(n, db@) && exists|j: int|
                    0 <= j < i && (#[trigger] es[j]).0@ == n,
        decreases es.len() - i,
    {
        let name = m.key_at(i);
        let ghost before = views(out@);
        let ghost prev = out@;
        if belongs_to(name.as_str(), db) {
            out.push(name.clone());
            proof {
                assert(views(out@) =~= before.push(name@));
                assert forall|a: int, b: int| 0 <= a < b < views(out@).len() implies seq_lt(
                    #[trigger] views(out@)[a],
                    #[trigger] views(out@)[b],
                ) by {
                    if b == before.len() {
                        let j = choose|j: int| 0 <= j < i && (#[trigger] es[j]).0@ == prev[a]@;
                        assert(<String as SortKey>::below(
                            es[j].0.model(),
                            es[i as int].0.model(),
                        ));
                    } else {
                        assert(seq_lt(before[a], before[b]));
                    }
                }
                assert forall|k: int| 0 <= k < out@.len() implies exists|j: int|
                    0 <= j < i + 1 && (#[trigger] es[j]).0@ == (#[trigger] out@[k])@ by {
                    if k < prev.len() {
                        let j = choose|j: int| 0 <= j < i && (#[trigger] es[j]).0@ == prev[k]@;
                        assert(es[j].0@ == out@[k]@);
                    } else {
                        assert(es[i as int].0@ == out@[k]@);
                    }
                }
            }
        }
        proof {
            assert forall|n: Seq<char>| #[trigger]
                views(out@).contains(n) <==> in_database(n, db@) && exists|j: int|
                    0 <= j < i + 1 && (#[trigger] es[j]).0@ == n by {
                if views(out@).contains(n) {
                    let p = choose|p: int| 0 <= p < views(out@).len() && views(out@)[p] == n;
                    if p < before.len() {
                        assert(before[p] == n);
                        assert(before.contains(n));
                        let j = choose|j: int| 0 <= j < i && (#[trigger] es[j]).0@ == n;
                        assert(es[j].0@ == n);
                    } else {
                        assert(es[i as int].0@ == n);
                    }
                }
                if in_database(n, db@) && exists|j: int|
                    0 <= j < i + 1 && (#[trigger] es[j]).0@ == n {
                    let j = choose|j: int| 0 <= j < i + 1 && (#[trigger] es[j]).0@ == n;
                    if j < i {
                        assert(before.contains(n));
                        let p = choose|p: int| 0 <= p < before.len() && before[p] == n;
                        assert(views(out@)[p] == n);
                    } else {
                        assert(views(out@)[before.len() as int] == n);
                    }
                }
            }
        }
        i = i + 1;
    }
    proof {
        assert forall|n: Seq<char>| #[trigger]
            views(out@).contains(n) <==> m@.dom().contains(n) && in_database(n, db@) by {
            if m@.dom().contains(n) {
                let p = place_of(es, n);
                assert(es[p].0.model() == n);
                assert(es[p].0@ == n);
            }
            if exists|j: int| 0 <= j < es.len() && (#[trigger] es[j]).0@ == n {
                let j = choose|j: int| 0 <= j < es.len() && (#[trigger] es[j]).0@ == n;
                lemma_entry_at(es, j);
            }
        }
        assert(lists_members(views(out@), m@.dom(), db@));
        lemma_ascending_unique(views(out@), members(m@.dom(), db@));
    }
    out
}

fn no_database_drop(outcome: DdlOutcome) -> (r: DatabaseDrop)
    ensures
        r.outcome == outcome,
{
    DatabaseDrop {
        outcome,
        tables: Vec::new(),
        series: Vec::new(),
        vector_indexes: Vec::new(),
        search_indexes: Vec::new(),
        indexes: Vec::new(),
        geo_indexes: Vec::new(),
    }
}

impl Database {
    /// `CREATE DATABASE` stamped `hlc`. `name_ok` says whether the name is a
    /// valid database name.
    pub fn create_database(&mut self, name: &str, name_ok: bool, if_not_exists: bool, hlc: Hlc) -> (r:
        Result<DdlOutcome, EngineError>)
        requires
            old(self).wf(),
        ensures
            final(self).wf(),
            ({
                let step = create_database_step(
                    old(self)@.cat,
                    name@,
                    name_ok,
                    if_not_exists,
                    hlc,
                );
                verdict(r) == step.0 && final(self)@ == (DbView { cat: step.1, ..old(self)@ })
            }),
    {
        if !name_ok {
            return Err(
                constraint_about(
                    "invalid database name ",
                    quoted(name).as_str(),
                    ": use letters, digits, '_' or '-' (max 64 chars)",
                ),
            );
        }
        let key = cat("d:", name);
        if !schema_advances(&self.catalog.schema_versions, &key, hlc) {
            return Ok(DdlOutcome::Stale);
        }
        let known: bool = self.has_database(name);
        if known && !if_not_exists {
            return Err(EngineError::DatabaseExists(name.to_owned()));
        }
        if !known {
            self.catalog.databases.add_name(name.to_owned());
        }
        record_schema(&mut self.catalog.schema_versions, key, hlc, false);
        Ok(
            if known {
                DdlOutcome::Recorded
            } else {
                DdlOutcome::Applied
            },
        )
    }

    /// Drops tables in turn, where they are there.
    fn drop_tables(&mut self, names: &Vec<String>, stamps: &DropStamps, from: u128) -> (r: Vec<
        DropReport,
    >)
        requires
            old(self).wf(),
            from <= usize::MAX,
        ensures
            final(self).wf(),
            final(self)@ == tables_dropped(old(self)@, views(names@), stamps@, from as int),
            reports_drops(r@, old(self)@, views(names@), stamps@, from as int),
    {
        let ghost start = self@;
        let ghost ns = views(names@);
        let mut reports: Vec<DropReport> = Vec::new();
        let mut i: usize = 0;
        proof {
            assert(ns.take(0) =~= Seq::<Seq<char>>::empty());
        }
        while i < names.len()
            invariant
                self.wf(),
                ns == views(names@),
                i <= names@.len(),
                from <= usize::MAX,
                self@ == tables_dropped(start, ns.take(i as int), stamps@, from as int),
                reports@.len() == i,
                forall|k: int|
                    0 <= k < i ==> reports_drop(
                        #[trigger] reports@[k],
                        tables_dropped(start, ns.take(k), stamps@, from as int).cat,
                        ns[k],
                    ),
            decreases names@.len() - i,
        {
            proof {
                let t = ns.take(i + 1);
                assert(t.drop_last() =~= ns.take(i as int));
                assert(t.last() == names@[i as int]@);
            }
            let hlc = stamps.at(from + i as u128);
            match self.drop_table(names[i].as_str(), true, hlc) {
                Ok(d) => {
                    reports.push(d);
                },
                Err(_) => {
                    proof {
                        assert(false);
                    }
                },
            }
            i = i + 1;
        }
        proof {
            assert(ns.take(ns.len() as int) =~= ns);
        }
        reports
    }

    /// `DROP DATABASE`, with everything in it dropped in turn.
    pub fn drop_database(&mut self, name: &str, if_exists: bool, stamps: &DropStamps) -> (r:
        Result<DatabaseDrop, EngineError>)
        requires
            old(self).wf(),
        ensures
            final(self).wf(),
            ({
                let step = drop_database_step(old(self)@, name@, if_exists, stamps@);
                &&& final(self)@ == step.1
                &&& match r {
                    Ok(d) => step.0 == Ok::<DdlOutcome, ErrorView>(d.outcome) && (d.outcome
                        == DdlOutcome::Applied ==> reports_database_drop(
                        d,
                        old(self)@,
                        name@,
                        stamps@,
                    )),
                    Err(e) => step.0 == Err::<DdlOutcome, ErrorView>(e@),
                }
            }),
    {
        if str_eq(name, "default") {
            return Err(constraint("cannot drop the default database"));
        }
        let hlc = stamps.own;
        let key = cat("d:", name);
        if !schema_advances(&self.catalog.schema_versions, &key, hlc) {
            return Ok(no_database_drop(DdlOutcome::Stale));
        }
        if !self.catalog.databases.contains(name) {
            if if_exists {
                record_schema(&mut self.catalog.schema_versions, key, hlc, true);
                return Ok(no_database_drop(DdlOutcome::Recorded));
            }
            return Err(EngineError::DatabaseNotFound(name.to_owned()));
        }
        let tables = names_in(&self.catalog.tables, name);
        proof {
            assert(self.catalog.tables@.dom() =~= self@.cat.tables.dom());
        }
        let dropped = self.drop_tables(&tables, stamps, 0);
        let mut from: u128 = tables.len() as u128;
        let left = names_in(&self.catalog.timeseries, name);
        proof {
            assert(self.catalog.timeseries@.dom() =~= self@.cat.timeseries.dom());
        }
        let series = self.drop_tables(&left, stamps, from);
        from = from + left.len() as u128;
        let ghost a = self@;
        let vectors = names_in(&self.catalog.vector_indexes, name);
        proof {
            assert(self.catalog.vector_indexes@.dom() =~= self@.cat.vector_indexes.dom());
            assert(views(vectors@).take(0) =~= Seq::<Seq<char>>::empty());
        }
        let mut i: usize = 0;
        while i < vectors.len()
            invariant
                self.wf(),
                i <= vectors@.len(),
                from <= 2 * usize::MAX,
                self@ == vectors_dropped(a, views(vectors@).take(i as int), stamps@, from as int),
            decreases vectors@.len() - i,
        {
            proof {
                let t = views(vectors@).take(i + 1);
                assert(t.drop_last() =~= views(vectors@).take(i as int));
                assert(t.last() == vectors@[i as int]@);
            }
            let hlc = stamps.at(from + i as u128);
            let _done = self.drop_vector_index(vectors[i].as_str(), true, hlc);
            i = i + 1;
        }
        proof {
            assert(views(vectors@).take(vectors@.len() as int) =~= views(vectors@));
        }
        from = from + vectors.len() as u128;
        let ghost b = self@;
        let searches = names_in(&self.catalog.search_indexes, name);
        proof {
            assert(self.catalog.search_indexes@.dom() =~= self@.cat.search_indexes.dom());
            assert(views(searches@).take(0) =~= Seq::<Seq<char>>::empty());
        }
        let mut i: usize = 0;
        while i < searches.len()
            invariant
                self.wf(),
                i <= searches@.len(),
                from <= 3 * usize::MAX,
                self@ == (DbView {
                    cat: searches_dropped(
                        b.cat,
                        views(searches@).take(i as int),
                        stamps@,
                        from as int,
                    ),
                    ..b
                }),
            decreases searches@.len() - i,
        {
            proof {
                let t = views(searches@).take(i + 1);
                assert(t.drop_last() =~= views(searches@).take(i as int));
                assert(t.last() == searches@[i as int]@);
            }
            let hlc = stamps.at(from + i as u128);
            let _done = self.drop_search_index(searches[i].as_str(), true, hlc);
            i = i + 1;
        }
        proof {
            assert(views(searches@).take(searches@.len() as int) =~= views(searches@));
        }
        from = from + searches.len() as u128;
        let ghost c = self@;
        let indexes = names_in(&self.catalog.indexes, name);
        proof {
            assert(self.catalog.indexes@.dom() =~= self@.cat.indexes.dom());
            assert(views(indexes@).take(0) =~= Seq::<Seq<char>>::empty());
        }
        let mut i: usize = 0;
        while i < indexes.len()
            invariant
                self.wf(),
                i <= indexes@.len(),
                from <= 4 * usize::MAX,
                self@ == (DbView {
                    cat: indexes_dropped(
                        c.cat,
                        views(indexes@).take(i as int),
                        stamps@,
                        from as int,
                    ),
                    ..c
                }),
            decreases indexes@.len() - i,
        {
            proof {
                let t = views(indexes@).take(i + 1);
                assert(t.drop_last() =~= views(indexes@).take(i as int));
                assert(t.last() == indexes@[i as int]@);
            }
            let hlc = stamps.at(from + i as u128);
            let _done = self.drop_index(indexes[i].as_str(), true, hlc);
            i = i + 1;
        }
        proof {
            assert(views(indexes@).take(indexes@.len() as int) =~= views(indexes@));
        }
        from = from + indexes.len() as u128;
        let ghost e = self@;
        let geos = names_in(&self.catalog.geo_indexes, name);
        proof {
            assert(self.catalog.geo_indexes@.dom() =~= self@.cat.geo_indexes.dom());
            assert(views(geos@).take(0) =~= Seq::<Seq<char>>::empty());
        }
        let mut i: usize = 0;
        while i < geos.len()
            invariant
                self.wf(),
                i <= geos@.len(),
                from <= 5 * usize::MAX,
                self@ == geos_dropped(e, views(geos@).take(i as int), stamps@, from as int),
            decreases geos@.len() - i,
        {
            proof {
                let t = views(geos@).take(i + 1);
                assert(t.drop_last() =~= views(geos@).take(i as int));
                assert(t.last() == geos@[i as int]@);
            }
            let hlc = stamps.at(from + i as u128);
            let _done = self.drop_geo_index(geos[i].as_str(), true, hlc);
            i = i + 1;
        }
        proof {
            assert(views(geos@).take(geos@.len() as int) =~= views(geos@));
        }
        self.catalog.databases.drop_name(name);
        record_schema(&mut self.catalog.schema_versions, key, hlc, true);
        Ok(
            DatabaseDrop {
                outcome: DdlOutcome::Applied,
                tables: dropped,
                series,
                vector_indexes: vectors,
                search_indexes: searches,
                indexes,
                geo_indexes: geos,
            },
        )
    }

    /// Every database name in order, the implicit default one among them.
    pub fn database_names(&self) -> (r: Vec<String>)
        requires
            self.wf(),
        ensures
            names_ascend(views(r@)),
            forall|n: Seq<char>| #[trigger]
                views(r@).contains(n) <==> n == "default"@ || self@.cat.databases.contains(n),
    {
        let mut all = NameSet::new();
        let mut i: usize = 0;
        let ghost es = self.catalog.databases.names.entries@;
        proof {
            lemma_entry_names(es);
            assert(all@ =~= entry_names(es.take(0)).to_set());
        }
        while i < self.catalog.databases.names.len()
            invariant
                self.wf(),
                all.wf(),
                es == self.catalog.databases.names.entries@,
                i <= es.len(),
                all@ == entry_names(es.take(i as int)).to_set(),
            decreases es.len() - i,
        {
            let ghost before = entry_names(es.take(i as int));
            all.add_name(self.catalog.databases.names.key_at(i).clone());
            proof {
                let now = entry_names(es.take(i + 1));
                assert(now =~= before.push(es[i as int].0@));
                assert forall|n: Seq<char>| #[trigger]
                    now.contains(n) <==> before.contains(n) || n == es[i as int].0@ by {
                    if before.contains(n) {
                        assert(now[before.index_of(n)] == n);
                    }
                    assert(now[i as int] == es[i as int].0@);
                    if now.contains(n) {
                        let p = now.index_of(n);
                        if p < i {
                            assert(before[p] == n);
                        }
                    }
                }
                assert(all@ =~= now.to_set());
            }
            i = i + 1;
        }
        all.add_name("default".to_owned());
        let ghost fs = all.names.entries@;
        let mut out: Vec<String> = Vec::new();
        let mut i: usize = 0;
        proof {
            assert(es.take(es.len() as int) =~= es);
            lemma_entry_names(fs);
            assert(views(out@) =~= entry_names(fs.take(0)));
        }
        while i < all.names.len()
            invariant
                all.wf(),
                fs == all.names.entries@,
                i <= fs.len(),
                views(out@) == entry_names(fs.take(i as int)),
            decreases fs.len() - i,
        {
            let ghost before = views(out@);
            out.push(all.names.key_at(i).clone());
            proof {
                assert(views(out@) =~= before.push(fs[i as int].0@));
                assert(entry_names(fs.take(i + 1)) =~= before.push(fs[i as int].0@));
            }
            i = i + 1;
        }
        proof {
            assert(fs.take(fs.len() as int) =~= fs);
            assert forall|n: Seq<char>| #[trigger]
                views(out@).contains(n) <==> n == "default"@ || self@.cat.databases.contains(
                    n,
                ) by {
                assert(entry_names(fs).contains(n) <==> all@.contains(n));
                assert(entry_names(es).contains(n) <==> entry_map(es).dom().contains(n));
            }
        }
        out
    }
}

/// The names of a run of entries.
pub open spec fn entry_names<D>(es: Seq<(String, D)>) -> Seq<Seq<char>> {
    es.map_values(|e: (String, D)| e.0@)
}

/// The names of ascending entries ascend, and are those of the map.
pub proof fn lemma_entry_names<D>(es: Seq<(String, D)>)
    requires
        ascending(es),
    ensures
        names_ascend(entry_names(es)),
        forall|n: Seq<char>| #[trigger]
            entry_names(es).contains(n) <==> entry_map(es).dom().contains(n),
{
    assert forall|i: int, j: int| 0 <= i < j < es.len() implies seq_lt(
        #[trigger] entry_names(es)[i],
        #[trigger] entry_names(es)[j],
    ) by {
        assert(<String as SortKey>::below(es[i].0.model(), es[j].0.model()));
    }
    assert forall|n: Seq<char>| #[trigger]
        entry_names(es).contains(n) <==> entry_map(es).dom().contains(n) by {
        if entry_names(es).contains(n) {
            let i = choose|i: int| 0 <= i < es.len() && entry_names(es)[i] == n;
            lemma_entry_at(es, i);
        }
        if holds_key(es, n) {
            let p = place_of(es, n);
            assert(entry_names(es)[p] == n);
        }
    }
}

} // verus!
