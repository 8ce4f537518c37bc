//! Statistics and inventory of one node: what its metrics, `SHOW STATUS` and
//! its schema overview show.

use vstd::prelude::*;

use crate::catalog::opt_view;
use crate::catalog::IndexDef;
use crate::catalog::SearchIndexDef;
use crate::catalog::TableDef;
use crate::catalog::TsTableDef;
use crate::catalog::VectorIndexDef;
use crate::database::copy_strings;
use crate::database::Database;
use crate::namespace::split;
use crate::namespace::split_name;
use crate::show::add_column;
use crate::show::cell_rows;
use crate::show::cells;
use crate::show::txt;
use crate::show::Cell;
use crate::show::CellView;
use crate::show::Listing;
use crate::sorted_map::SortedMap;
use crate::text::cat;
use crate::text::cat3;
use crate::text::seq_lt;
use crate::text::str_eq;
use crate::text::str_lt;
use crate::text::views;

verus! {

/// Statistics over all of a database's tables and indexes.
#[derive(Debug, Clone, Default)]
pub struct DbStats {
    pub tables: usize,
    pub secondary_indexes: usize,
    pub vector_indexes: usize,
    /// Vectors held by all vector indexes.
    pub vectors_indexed: u64,
    /// Time spent on vector indexes when the database was opened.
    pub vector_rebuild_ms: u64,
    pub search_indexes: usize,
    /// Searchable documents in all search indexes.
    pub search_docs: u64,
    /// Bytes on disk of all search indexes.
    pub search_disk_bytes: u64,
    /// Time spent on search indexes when the database was opened.
    pub search_rebuild_ms: u64,
    pub memtable_bytes: u64,
    pub sstable_count: u64,
    pub disk_bytes: u64,
    pub wal_bytes: u64,
    pub wal_fsyncs: u64,
    pub compactions: u64,
    pub compaction_bytes: u64,
    pub cache_hits: u64,
    pub cache_misses: u64,
    pub cache_evictions: u64,
    pub cache_entries: u64,
    pub bloom_negatives: u64,
    /// Each table's share, where that was asked for.
    pub per_table: Vec<TableStats>,
    /// Each time-series table's share, where that was asked for.
    pub per_timeseries: Vec<TsTableStats>,
}

/// Statistics of one time-series table.
#[derive(Debug, Clone, Default)]
pub struct TsTableStats {
    pub database: String,
    pub name: String,
    pub series: u64,
    pub samples_appended: u64,
    pub samples_rejected: u64,
    pub disk_bytes: u64,
    /// Blocks on disk.
    pub blocks: u64,
    /// Failures of retention and compaction since the table was opened.
    pub maintenance_errors: u64,
}

/// Statistics of one table.
#[derive(Debug, Clone, Default)]
pub struct TableStats {
    /// The database that the table belongs to.
    pub database: String,
    /// The bare name.
    pub name: String,
    pub live_keys: u64,
    pub tombstones: u64,
    pub disk_bytes: u64,
    pub sstables: u64,
}

/// One node's schema and what it takes up.
#[derive(Debug, Default)]
pub struct Inventory {
    pub tables: Vec<InventoryTable>,
    pub timeseries: Vec<InventoryTimeseries>,
    pub indexes: Vec<InventoryIndex>,
    pub vector_indexes: Vec<InventoryVector>,
    pub search_indexes: Vec<InventorySearch>,
}

#[derive(Debug)]
pub struct InventoryTable {
    pub name: String,
    pub primary_key: Vec<String>,
    pub ttl_ms: Option<i64>,
    pub memory: bool,
    pub live_keys: u64,
    pub tombstones: u64,
    pub disk_bytes: u64,
    pub sstables: u64,
    /// The table's own replication factor, where it has one.
    pub replication: Option<u32>,
    /// The members that the table is pinned to.
    pub pinned_nodes: Vec<String>,
    /// Whether witnesses mirror the table.
    pub witness: bool,
    /// Whether a placement change is open.
    pub transition: bool,
}

#[derive(Debug)]
pub struct InventoryTimeseries {
    pub name: String,
    pub series_key: Vec<String>,
    pub retention_ms: Option<i64>,
    pub rollup_of: Option<String>,
    pub series: u64,
    pub disk_bytes: u64,
}

#[derive(Debug)]
pub struct InventoryIndex {
    pub name: String,
    pub table: String,
    pub paths: Vec<String>,
    pub entries: u64,
    pub disk_bytes: u64,
}

#[derive(Debug)]
pub struct InventoryVector {
    pub name: String,
    pub table: String,
    pub path: String,
    pub metric: String,
    pub dim: usize,
    pub ef_search: Option<usize>,
    pub vectors: u64,
    pub snapshot_bytes: u64,
}

#[derive(Debug)]
pub struct InventorySearch {
    pub name: String,
    pub table: String,
    pub paths: Vec<String>,
    pub docs: u64,
    pub disk_bytes: u64,
    pub uncommitted: u64,
}

/// What one storage engine counts.
pub struct EngineStats {
    pub memtable_bytes: u64,
    pub sstable_count: u64,
    pub disk_bytes: u64,
    pub wal_bytes: u64,
    pub wal_fsyncs: u64,
    pub compactions: u64,
    pub compaction_bytes: u64,
    pub cache_hits: u64,
    pub cache_misses: u64,
    pub cache_evictions: u64,
    pub cache_entries: u64,
    pub bloom_negatives: u64,
}

/// Sums over storage engines.
pub struct EngineTotals {
    pub memtable_bytes: nat,
    pub sstable_count: nat,
    pub disk_bytes: nat,
    pub wal_bytes: nat,
    pub wal_fsyncs: nat,
    pub compactions: nat,
    pub compaction_bytes: nat,
    pub cache_hits: nat,
    pub cache_misses: nat,
    pub cache_evictions: nat,
    pub cache_entries: nat,
    pub bloom_negatives: nat,
}

/// What a run of storage engines count together.
pub open spec fn engine_totals(es: Seq<EngineStats>) -> EngineTotals
    decreases es.len(),
{
    if es.len() == 0 {
        EngineTotals {
            memtable_bytes: 0,
            sstable_count: 0,
            disk_bytes: 0,
            wal_bytes: 0,
            wal_fsyncs: 0,
            compactions: 0,
            compaction_bytes: 0,
            cache_hits: 0,
            cache_misses: 0,
            cache_evictions: 0,
            cache_entries: 0,
            bloom_negatives: 0,
        }
    } else {
        let t = engine_totals(es.drop_last());
        let s = es.last();
        EngineTotals {
            memtable_bytes: t.memtable_bytes + s.memtable_bytes as nat,
            sstable_count: t.sstable_count + s.sstable_count as nat,
            disk_bytes: t.disk_bytes + s.disk_bytes as nat,
            wal_bytes: t.wal_bytes + s.wal_bytes as nat,
            wal_fsyncs: t.wal_fsyncs + s.wal_fsyncs as nat,
            compactions: t.compactions + s.compactions as nat,
            compaction_bytes: t.compaction_bytes + s.compaction_bytes as nat,
            cache_hits: t.cache_hits + s.cache_hits as nat,
            cache_misses: t.cache_misses + s.cache_misses as nat,
            cache_evictions: t.cache_evictions + s.cache_evictions as nat,
            cache_entries: t.cache_entries + s.cache_entries as nat,
            bloom_negatives: t.bloom_negatives + s.bloom_negatives as nat,
        }
    }
}

/// Whether sums can be counted in 64 bits.
pub open spec fn totals_fit(t: EngineTotals) -> bool {
    &&& t.memtable_bytes <= u64::MAX
    &&& t.sstable_count <= u64::MAX
    &&& t.disk_bytes <= u64::MAX
    &&& t.wal_bytes <= u64::MAX
    &&& t.wal_fsyncs <= u64::MAX
    &&& t.compactions <= u64::MAX
    &&& t.compaction_bytes <= u64::MAX
    &&& t.cache_hits <= u64::MAX
    &&& t.cache_misses <= u64::MAX
    &&& t.cache_evictions <= u64::MAX
    &&& t.cache_entries <= u64::MAX
    &&& t.bloom_negatives <= u64::MAX
}

proof fn lemma_totals_grow(es: Seq<EngineStats>, k: int)
    requires
        0 <= k <= es.len(),
        totals_fit(engine_totals(es)),
    ensures
        totals_fit(engine_totals(es.take(k))),
    decreases es.len() - k,
{
    if k == es.len() {
        assert(es.take(k) =~= es);
    } else {
        lemma_totals_grow(es, k + 1);
        assert(es.take(k + 1).drop_last() =~= es.take(k));
    }
}

/// What one search index counts.
pub struct SearchStats {
    pub docs: u64,
    pub disk_bytes: u64,
}

/// The documents of a run of search indexes.
pub open spec fn total_docs(ss: Seq<SearchStats>) -> nat
    decreases ss.len(),
{
    if ss.len() == 0 {
        0
    } else {
        total_docs(ss.drop_last()) + ss.last().docs as nat
    }
}

/// The bytes of a run of search indexes.
pub open spec fn total_bytes(ss: Seq<SearchStats>) -> nat
    decreases ss.len(),
{
    if ss.len() == 0 {
        0
    } else {
        total_bytes(ss.drop_last()) + ss.last().disk_bytes as nat
    }
}

proof fn lemma_search_totals_grow(ss: Seq<SearchStats>, k: int)
    requires
        0 <= k <= ss.len(),
    ensures
        total_docs(ss.take(k)) <= total_docs(ss),
        total_bytes(ss.take(k)) <= total_bytes(ss),
    decreases ss.len() - k,
{
    if k == ss.len() {
        assert(ss.take(k) =~= ss);
    } else {
        lemma_search_totals_grow(ss, k + 1);
        assert(ss.take(k + 1).drop_last() =~= ss.take(k));
    }
}

/// Whether statistics hold the sums of the engines and the search indexes.
pub open spec fn holds_totals(d: DbStats, t: EngineTotals) -> bool {
    &&& d.memtable_bytes == t.memtable_bytes
    &&& d.sstable_count == t.sstable_count
    &&& d.disk_bytes == t.disk_bytes
    &&& d.wal_bytes == t.wal_bytes
    &&& d.wal_fsyncs == t.wal_fsyncs
    &&& d.compactions == t.compactions
    &&& d.compaction_bytes == t.compaction_bytes
    &&& d.cache_hits == t.cache_hits
    &&& d.cache_misses == t.cache_misses
    &&& d.cache_evictions == t.cache_evictions
    &&& d.cache_entries == t.cache_entries
    &&& d.bloom_negatives == t.bloom_negatives
}

/// Statistics of something that belongs to a database.
pub trait Placed: Sized {
    /// The database and the bare name.
    spec fn place(&self) -> (Seq<char>, Seq<char>);

    /// Whether this comes before `other`, by database and then by name.
    fn precedes(&self, other: &Self) -> (r: bool)
        ensures
            r == pair_lt(self.place(), other.place()),
    ;
}

/// The order of a database and a name.
pub open spec fn pair_lt(a: (Seq<char>, Seq<char>), b: (Seq<char>, Seq<char>)) -> bool {
    seq_lt(a.0, b.0) || (a.0 == b.0 && seq_lt(a.1, b.1))
}

fn pair_before(a: &String, b: &String, c: &String, d: &String) -> (r: bool)
    ensures
        r == pair_lt((a@, b@), (c@, d@)),
{
    str_lt(a.as_str(), c.as_str()) || (str_eq(a.as_str(), c.as_str()) && str_lt(
        b.as_str(),
        d.as_str(),
    ))
}

impl Placed for TableStats {
    open spec fn place(&self) -> (Seq<char>, Seq<char>) {
        (self.database@, self.name@)
    }

    fn precedes(&self, other: &Self) -> (r: bool) {
        pair_before(&self.database, &self.name, &other.database, &other.name)
    }
}

impl Placed for TsTableStats {
    open spec fn place(&self) -> (Seq<char>, Seq<char>) {
        (self.database@, self.name@)
    }

    fn precedes(&self, other: &Self) -> (r: bool) {
        pair_before(&self.database, &self.name, &other.database, &other.name)
    }
}

/// The place where statistics go into an ordered list, behind their equals.
pub open spec fn pair_slot<T: Placed>(list: Seq<T>, x: T) -> int
    decreases list.len(),
{
    if list.len() == 0 {
        0
    } else if pair_lt(x.place(), list[0].place()) {
        0
    } else {
        1 + pair_slot(list.skip(1), x)
    }
}

/// Statistics by database and name.
pub open spec fn by_place<T: Placed>(list: Seq<T>) -> Seq<T>
    decreases list.len(),
{
    if list.len() == 0 {
        Seq::empty()
    } else {
        let before = by_place(list.drop_last());
        before.insert(pair_slot(before, list.last()), list.last())
    }
}

proof fn lemma_pair_slot_is<T: Placed>(list: Seq<T>, x: T, k: int)
    requires
        0 <= k <= list.len(),
        forall|i: int| 0 <= i < k ==> !pair_lt(x.place(), (#[trigger] list[i]).place()),
        k < list.len() ==> pair_lt(x.place(), list[k].place()),
    ensures
        pair_slot(list, x) == k,
    decreases list.len(),
{
    if list.len() > 0 && k > 0 {
        assert(!pair_lt(x.place(), list[0].place()));
        let rest = list.skip(1);
        assert forall|i: int| 0 <= i < k - 1 implies !pair_lt(
            x.place(),
            (#[trigger] rest[i]).place(),
        ) by {
            assert(rest[i] == list[i + 1]);
        }
        if k < list.len() {
            assert(rest[k - 1] == list[k]);
        }
        lemma_pair_slot_is(rest, x, k - 1);
    }
}

fn sort_by_place<T: Placed>(list: Vec<T>) -> (r: Vec<T>)
    ensures
        r@ == by_place(list@),
{
    let ghost all = list@;
    let rest = list;
    let mut out: Vec<T> = Vec::new();
    proof {
        assert(all.take(0) =~= Seq::<T>::empty());
        assert(out@ =~= Seq::<T>::empty());
    }
    for x in it: rest
        invariant
            it.seq() == all,
            out@ == by_place(all.take(it.index() as int)),
    {
        let ghost done = it.index() as int;
        proof {
            assert(x == all[done]);
            assert(all.take(done + 1).drop_last() =~= all.take(done));
            assert(all.take(done + 1).last() == x);
        }
        let mut k: usize = 0;
        while k < out.len() && !x.precedes(&out[k])
            invariant
                k <= out@.len(),
                forall|i: int| 0 <= i < k ==> !pair_lt(x.place(), (#[trigger] out@[i]).place()),
            decreases out@.len() - k,
        {
            k = k + 1;
        }
        proof {
            lemma_pair_slot_is(out@, x, k as int);
        }
        out.insert(k, x);
    }
    proof {
        assert(all.take(all.len() as int) =~= all);
    }
    out
}

impl Database {
    /// Statistics over all tables and indexes: what the engines and the search
    /// indexes count together, and where they are given, the shares of the
    /// tables by database and name.
    pub fn stats(
        &self,
        engines: &Vec<EngineStats>,
        searches: &Vec<SearchStats>,
        vectors_indexed: u64,
        rebuild_ms: (u64, u64),
        per_table: Vec<TableStats>,
        per_timeseries: Vec<TsTableStats>,
    ) -> (r: DbStats)
        requires
            self.wf(),
            totals_fit(engine_totals(engines@)),
            total_docs(searches@) <= u64::MAX,
            total_bytes(searches@) <= u64::MAX,
        ensures
            r.tables == self.catalog.tables.entries@.len(),
            r.secondary_indexes == self.catalog.indexes.entries@.len(),
            r.vector_indexes == self.catalog.vector_indexes.entries@.len(),
            r.search_indexes == self.catalog.search_indexes.entries@.len(),
            r.vectors_indexed == vectors_indexed,
            r.vector_rebuild_ms == rebuild_ms.0,
            r.search_rebuild_ms == rebuild_ms.1,
            r.search_docs == total_docs(searches@),
            r.search_disk_bytes == total_bytes(searches@),
            holds_totals(r, engine_totals(engines@)),
            r.per_table@ == by_place(per_table@),
            r.per_timeseries@ == by_place(per_timeseries@),
    {
        let mut r = DbStats {
            tables: self.catalog.tables.len(),
            secondary_indexes: self.catalog.indexes.len(),
            vector_indexes: self.catalog.vector_indexes.len(),
            vectors_indexed,
            vector_rebuild_ms: rebuild_ms.0,
            search_indexes: self.catalog.search_indexes.len(),
            search_docs: 0,
            search_disk_bytes: 0,
            search_rebuild_ms: rebuild_ms.1,
            memtable_bytes: 0,
            sstable_count: 0,
            disk_bytes: 0,
            wal_bytes: 0,
            wal_fsyncs: 0,
            compactions: 0,
            compaction_bytes: 0,
            cache_hits: 0,
            cache_misses: 0,
            cache_evictions: 0,
            cache_entries: 0,
            bloom_negatives: 0,
            per_table: sort_by_place(per_table),
            per_timeseries: sort_by_place(per_timeseries),
        };
        let ghost kept = r;
        let mut i: usize = 0;
        proof {
            assert(searches@.take(0) =~= Seq::<SearchStats>::empty());
        }
        while i < searches.len()
            invariant
                i <= searches@.len(),
                total_docs(searches@) <= u64::MAX,
                total_bytes(searches@) <= u64::MAX,
                r.search_docs == total_docs(searches@.take(i as int)),
                r.search_disk_bytes == total_bytes(searches@.take(i as int)),
                r == (DbStats {
                    search_docs: r.search_docs,
                    search_disk_bytes: r.search_disk_bytes,
                    ..kept
                }),
            decreases searches@.len() - i,
        {
            proof {
                assert(searches@.take(i + 1).drop_last() =~= searches@.take(i as int));
                assert(searches@.take(i + 1).last() == searches@[i as int]);
                lemma_search_totals_grow(searches@, i + 1);
            }
            r.search_docs = r.search_docs + searches[i].docs;
            r.search_disk_bytes = r.search_disk_bytes + searches[i].disk_bytes;
            i = i + 1;
        }
        proof {
            assert(searches@.take(searches@.len() as int) =~= searches@);
            assert(engines@.take(0) =~= Seq::<EngineStats>::empty());
        }
        let ghost kept = r;
        let mut k: usize = 0;
        while k < engines.len()
            invariant
                k <= engines@.len(),
                totals_fit(engine_totals(engines@)),
                holds_totals(r, engine_totals(engines@.take(k as int))),
                r.tables == kept.tables,
                r.secondary_indexes == kept.secondary_indexes,
                r.vector_indexes == kept.vector_indexes,
                r.search_indexes == kept.search_indexes,
                r.vectors_indexed == kept.vectors_indexed,
                r.vector_rebuild_ms == kept.vector_rebuild_ms,
                r.search_rebuild_ms == kept.search_rebuild_ms,
                r.search_docs == kept.search_docs,
                r.search_disk_bytes == kept.search_disk_bytes,
                r.per_table == kept.per_table,
                r.per_timeseries == kept.per_timeseries,
            decreases engines@.len() - k,
        {
            proof {
                assert(engines@.take(k + 1).drop_last() =~= engines@.take(k as int));
                assert(engines@.take(k + 1).last() == engines@[k as int]);
                lemma_totals_grow(engines@, k + 1);
            }
            let s = &engines[k];
            r.memtable_bytes = r.memtable_bytes + s.memtable_bytes;
            r.sstable_count = r.sstable_count + s.sstable_count;
            r.disk_bytes = r.disk_bytes + s.disk_bytes;
            r.wal_bytes = r.wal_bytes + s.wal_bytes;
            r.wal_fsyncs = r.wal_fsyncs + s.wal_fsyncs;
            r.compactions = r.compactions + s.compactions;
            r.compaction_bytes = r.compaction_bytes + s.compaction_bytes;
            r.cache_hits = r.cache_hits + s.cache_hits;
            r.cache_misses = r.cache_misses + s.cache_misses;
            r.cache_evictions = r.cache_evictions + s.cache_evictions;
            r.cache_entries = r.cache_entries + s.cache_entries;
            r.bloom_negatives = r.bloom_negatives + s.bloom_negatives;
            k = k + 1;
        }
        proof {
            assert(engines@.take(engines@.len() as int) =~= engines@);
        }
        r
    }
}

/// The share of one table, under its database and bare name.
pub fn table_stats(name: &str, live_keys: u64, tombstones: u64, disk_bytes: u64, sstables: u64) -> (r:
    TableStats)
    ensures
        r.database@ == split_name(name@).0,
        r.name@ == split_name(name@).1,
        r.live_keys == live_keys,
        r.tombstones == tombstones,
        r.disk_bytes == disk_bytes,
        r.sstables == sstables,
{
    let (database, bare) = split(name);
    TableStats { database, name: bare, live_keys, tombstones, disk_bytes, sstables }
}

/// What one time-series table counts.
pub struct SeriesUsage {
    pub series: u64,
    pub samples_appended: u64,
    pub samples_rejected: u64,
    pub disk_bytes: u64,
    pub blocks: u64,
    pub maintenance_errors: u64,
}

/// The share of one time-series table, under its database and bare name.
pub fn ts_table_stats(name: &str, u: &SeriesUsage) -> (r: TsTableStats)
    ensures
        r.database@ == split_name(name@).0,
        r.name@ == split_name(name@).1,
        r.series == u.series,
        r.samples_appended == u.samples_appended,
        r.samples_rejected == u.samples_rejected,
        r.disk_bytes == u.disk_bytes,
        r.blocks == u.blocks,
        r.maintenance_errors == u.maintenance_errors,
{
    let (database, bare) = split(name);
    TsTableStats {
        database,
        name: bare,
        series: u.series,
        samples_appended: u.samples_appended,
        samples_rejected: u.samples_rejected,
        disk_bytes: u.disk_bytes,
        blocks: u.blocks,
        maintenance_errors: u.maintenance_errors,
    }
}

/// A metric with a number.
pub open spec fn metric(name: Seq<char>, n: u64) -> Seq<CellView> {
    seq![txt(name), CellView::Int(n as i64)]
}

/// The rows of the metrics over everything.
pub open spec fn overall_rows(s: DbStats, hit_rate: Seq<char>) -> Seq<Seq<CellView>> {
    seq![
        metric("tables"@, s.tables as u64),
        metric("secondary_indexes"@, s.secondary_indexes as u64),
        metric("vector_indexes"@, s.vector_indexes as u64),
        metric("vectors_indexed"@, s.vectors_indexed),
        metric("vector_rebuild_ms"@, s.vector_rebuild_ms),
        metric("search_indexes"@, s.search_indexes as u64),
        metric("search_docs"@, s.search_docs),
        metric("search_rebuild_ms"@, s.search_rebuild_ms),
        metric("disk_bytes"@, s.disk_bytes),
        metric("memtable_bytes"@, s.memtable_bytes),
        metric("sstable_count"@, s.sstable_count),
        metric("wal_bytes"@, s.wal_bytes),
        metric("wal_fsyncs"@, s.wal_fsyncs),
        metric("compactions"@, s.compactions),
        metric("compaction_bytes"@, s.compaction_bytes),
        metric("cache_hits"@, s.cache_hits),
        metric("cache_misses"@, s.cache_misses),
        seq![txt("cache_hit_rate"@), txt(hit_rate)],
        metric("cache_entries"@, s.cache_entries),
        metric("cache_evictions"@, s.cache_evictions),
        metric("bloom_negatives"@, s.bloom_negatives),
    ]
}

/// The rows of a run of tables.
pub open spec fn table_metrics(ts: Seq<TableStats>) -> Seq<Seq<CellView>>
    decreases ts.len(),
{
    if ts.len() == 0 {
        Seq::empty()
    } else {
        let t = ts.last();
        let q = "table."@ + t.database@ + "."@ + t.name@;
        table_metrics(ts.drop_last()).push(metric(q + ".live_keys"@, t.live_keys)).push(
            metric(q + ".tombstones"@, t.tombstones),
        ).push(metric(q + ".disk_bytes"@, t.disk_bytes))
    }
}

/// The rows of a run of time-series tables among the tables.
pub open spec fn series_metrics(ts: Seq<TsTableStats>) -> Seq<Seq<CellView>>
    decreases ts.len(),
{
    if ts.len() == 0 {
        Seq::empty()
    } else {
        let t = ts.last();
        let q = "table."@ + t.database@ + "."@ + t.name@;
        series_metrics(ts.drop_last()).push(seq![txt(q + ".kind"@), txt("timeseries"@)]).push(
            metric(q + ".series"@, t.series),
        ).push(metric(q + ".samples_appended"@, t.samples_appended)).push(
            metric(q + ".disk_bytes"@, t.disk_bytes),
        )
    }
}

/// The rows of a run of search indexes.
pub open spec fn search_metrics(ss: Seq<InventorySearch>) -> Seq<Seq<CellView>>
    decreases ss.len(),
{
    if ss.len() == 0 {
        Seq::empty()
    } else {
        let s = ss.last();
        let q = "search."@ + crate::namespace::displayed(s.name@, "default"@);
        search_metrics(ss.drop_last()).push(metric(q + ".docs"@, s.docs)).push(
            metric(q + ".disk_bytes"@, s.disk_bytes),
        ).push(metric(q + ".uncommitted"@, s.uncommitted))
    }
}

/// The rows of a run of time-series tables of their own.
pub open spec fn timeseries_metrics(ts: Seq<TsTableStats>) -> Seq<Seq<CellView>>
    decreases ts.len(),
{
    if ts.len() == 0 {
        Seq::empty()
    } else {
        let t = ts.last();
        let q = "timeseries."@ + shown_place(t);
        timeseries_metrics(ts.drop_last()).push(metric(q + ".series"@, t.series)).push(
            metric(q + ".blocks"@, t.blocks),
        ).push(metric(q + ".samples_appended"@, t.samples_appended)).push(
            metric(q + ".samples_rejected"@, t.samples_rejected),
        ).push(metric(q + ".disk_bytes"@, t.disk_bytes)).push(
            metric(q + ".maintenance_errors"@, t.maintenance_errors),
        )
    }
}

/// The name of a time-series table as it is shown: bare in the default
/// database.
pub open spec fn shown_place(t: TsTableStats) -> Seq<char> {
    if t.database@ == "default"@ {
        t.name@
    } else {
        t.database@ + "."@ + t.name@
    }
}

/// The rows of `SHOW STATUS`.
pub open spec fn status_rows(s: DbStats, hit_rate: Seq<char>, searches: Seq<InventorySearch>) -> Seq<
    Seq<CellView>,
> {
    (overall_rows(s, hit_rate) + table_metrics(s.per_table@) + series_metrics(s.per_timeseries@)
        + search_metrics(searches)).push(
        metric("timeseries_tables"@, s.per_timeseries@.len() as u64),
    ) + timeseries_metrics(s.per_timeseries@)
}

fn push_metric(rows: &mut Vec<Vec<Cell>>, name: &str, n: u64)
    ensures
        cell_rows(final(rows)@) == cell_rows(old(rows)@).push(metric(name@, n)),
{
    push_cells(rows, name, Cell::Int(n as i64));
}

fn push_cells(rows: &mut Vec<Vec<Cell>>, name: &str, cell: Cell)
    ensures
        cell_rows(final(rows)@) == cell_rows(old(rows)@).push(seq![txt(name@), cell@]),
{
    let ghost before = cell_rows(rows@);
    let mut row: Vec<Cell> = Vec::new();
    row.push(Cell::Text(name.to_owned()));
    row.push(cell);
    proof {
        assert(cells(row@) =~= seq![txt(name@), cell@]);
    }
    rows.push(row);
    proof {
        assert(cell_rows(rows@) =~= before.push(seq![txt(name@), cell@]));
    }
}

fn push_overall(rows: &mut Vec<Vec<Cell>>, s: &DbStats, hit_rate: &str)
    requires
        old(rows)@.len() == 0,
    ensures
        cell_rows(final(rows)@) == overall_rows(*s, hit_rate@),
{
    proof {
        assert(cell_rows(rows@) =~= Seq::<Seq<CellView>>::empty());
    }
    push_metric(rows, "tables", s.tables as u64);
    push_metric(rows, "secondary_indexes", s.secondary_indexes as u64);
    push_metric(rows, "vector_indexes", s.vector_indexes as u64);
    push_metric(rows, "vectors_indexed", s.vectors_indexed);
    push_metric(rows, "vector_rebuild_ms", s.vector_rebuild_ms);
    push_metric(rows, "search_indexes", s.search_indexes as u64);
    push_metric(rows, "search_docs", s.search_docs);
    push_metric(rows, "search_rebuild_ms", s.search_rebuild_ms);
    push_metric(rows, "disk_bytes", s.disk_bytes);
    push_metric(rows, "memtable_bytes", s.memtable_bytes);
    push_metric(rows, "sstable_count", s.sstable_count);
    push_metric(rows, "wal_bytes", s.wal_bytes);
    push_metric(rows, "wal_fsyncs", s.wal_fsyncs);
    push_metric(rows, "compactions", s.compactions);
    push_metric(rows, "compaction_bytes", s.compaction_bytes);
    push_metric(rows, "cache_hits", s.cache_hits);
    push_metric(rows, "cache_misses", s.cache_misses);
    push_cells(rows, "cache_hit_rate", Cell::Text(hit_rate.to_owned()));
    push_metric(rows, "cache_entries", s.cache_entries);
    push_metric(rows, "cache_evictions", s.cache_evictions);
    push_metric(rows, "bloom_negatives", s.bloom_negatives);
    proof {
        assert(cell_rows(rows@) =~= overall_rows(*s, hit_rate@));
    }
}

fn push_tables(rows: &mut Vec<Vec<Cell>>, ts: &Vec<TableStats>)
    ensures
        cell_rows(final(rows)@) == cell_rows(old(rows)@) + table_metrics(ts@),
{
    let ghost start = cell_rows(rows@);
    let mut i: usize = 0;
    proof {
        assert(ts@.take(0) =~= Seq::<TableStats>::empty());
        assert(start + table_metrics(ts@.take(0)) =~= start);
    }
    while i < ts.len()
        invariant
            i <= ts@.len(),
            cell_rows(rows@) == start + table_metrics(ts@.take(i as int)),
        decreases ts@.len() - i,
    {
        proof {
            assert(ts@.take(i + 1).drop_last() =~= ts@.take(i as int));
            assert(ts@.take(i + 1).last() == ts@[i as int]);
        }
        let t = &ts[i];
        let q = cat(
            cat3("table.", t.database.as_str(), ".").as_str(),
            t.name.as_str(),
        );
        push_metric(rows, cat(q.as_str(), ".live_keys").as_str(), t.live_keys);
        push_metric(rows, cat(q.as_str(), ".tombstones").as_str(), t.tombstones);
        push_metric(rows, cat(q.as_str(), ".disk_bytes").as_str(), t.disk_bytes);
        proof {
            assert(cell_rows(rows@) =~= start + table_metrics(ts@.take(i + 1)));
        }
        i = i + 1;
    }
    proof {
        assert(ts@.take(ts@.len() as int) =~= ts@);
    }
}

fn push_series(rows: &mut Vec<Vec<Cell>>, ts: &Vec<TsTableStats>)
    ensures
        cell_rows(final(rows)@) == cell_rows(old(rows)@) + series_metrics(ts@),
{
    let ghost start = cell_rows(rows@);
    let mut i: usize = 0;
    proof {
        assert(ts@.take(0) =~= Seq::<TsTableStats>::empty());
        assert(start + series_metrics(ts@.take(0)) =~= start);
    }
    while i < ts.len()
        invariant
            i <= ts@.len(),
            cell_rows(rows@) == start + series_metrics(ts@.take(i as int)),
        decreases ts@.len() - i,
    {
        proof {
            assert(ts@.take(i + 1).drop_last() =~= ts@.take(i as int));
            assert(ts@.take(i + 1).last() == ts@[i as int]);
        }
        let t = &ts[i];
        let q = cat(
            cat3("table.", t.database.as_str(), ".").as_str(),
            t.name.as_str(),
        );
        push_cells(
            rows,
            cat(q.as_str(), ".kind").as_str(),
            Cell::Text("timeseries".to_owned()),
        );
        push_metric(rows, cat(q.as_str(), ".series").as_str(), t.series);
        push_metric(rows, cat(q.as_str(), ".samples_appended").as_str(), t.samples_appended);
        push_metric(rows, cat(q.as_str(), ".disk_bytes").as_str(), t.disk_bytes);
        proof {
            assert(cell_rows(rows@) =~= start + series_metrics(ts@.take(i + 1)));
        }
        i = i + 1;
    }
    proof {
        assert(ts@.take(ts@.len() as int) =~= ts@);
    }
}

fn push_searches(rows: &mut Vec<Vec<Cell>>, ss: &Vec<InventorySearch>)
    ensures
        cell_rows(final(rows)@) == cell_rows(old(rows)@) + search_metrics(ss@),
{
    let ghost start = cell_rows(rows@);
    let mut i: usize = 0;
    proof {
        assert(ss@.take(0) =~= Seq::<InventorySearch>::empty());
        assert(start + search_metrics(ss@.take(0)) =~= start);
    }
    while i < ss.len()
        invariant
            i <= ss@.len(),
            cell_rows(rows@) == start + search_metrics(ss@.take(i as int)),
        decreases ss@.len() - i,
    {
        proof {
            assert(ss@.take(i + 1).drop_last() =~= ss@.take(i as int));
            assert(ss@.take(i + 1).last() == ss@[i as int]);
        }
        let s = &ss[i];
        let d = crate::namespace::display_name(s.name.as_str(), "default");
        let q = cat("search.", d.as_str());
        push_metric(rows, cat(q.as_str(), ".docs").as_str(), s.docs);
        push_metric(rows, cat(q.as_str(), ".disk_bytes").as_str(), s.disk_bytes);
        push_metric(rows, cat(q.as_str(), ".uncommitted").as_str(), s.uncommitted);
        proof {
            assert(cell_rows(rows@) =~= start + search_metrics(ss@.take(i + 1)));
        }
        i = i + 1;
    }
    proof {
        assert(ss@.take(ss@.len() as int) =~= ss@);
    }
}

fn push_timeseries(rows: &mut Vec<Vec<Cell>>, ts: &Vec<TsTableStats>)
    ensures
        cell_rows(final(rows)@) == cell_rows(old(rows)@) + timeseries_metrics(ts@),
{
    let ghost start = cell_rows(rows@);
    let mut i: usize = 0;
    proof {
        assert(ts@.take(0) =~= Seq::<TsTableStats>::empty());
        assert(start + timeseries_metrics(ts@.take(0)) =~= start);
    }
    while i < ts.len()
        invariant
            i <= ts@.len(),
            cell_rows(rows@) == start + timeseries_metrics(ts@.take(i as int)),
        decreases ts@.len() - i,
    {
        proof {
            assert(ts@.take(i + 1).drop_last() =~= ts@.take(i as int));
            assert(ts@.take(i + 1).last() == ts@[i as int]);
        }
        let t = &ts[i];
        let shown = if str_eq(t.database.as_str(), "default") {
            t.name.clone()
        } else {
            cat3(t.database.as_str(), ".", t.name.as_str())
        };
        let q = cat("timeseries.", shown.as_str());
        push_metric(rows, cat(q.as_str(), ".series").as_str(), t.series);
        push_metric(rows, cat(q.as_str(), ".blocks").as_str(), t.blocks);
        push_metric(rows, cat(q.as_str(), ".samples_appended").as_str(), t.samples_appended);
        push_metric(rows, cat(q.as_str(), ".samples_rejected").as_str(), t.samples_rejected);
        push_metric(rows, cat(q.as_str(), ".disk_bytes").as_str(), t.disk_bytes);
        push_metric(rows, cat(q.as_str(), ".maintenance_errors").as_str(), t.maintenance_errors);
        proof {
            assert(cell_rows(rows@) =~= start + timeseries_metrics(ts@.take(i + 1)));
        }
        i = i + 1;
    }
    proof {
        assert(ts@.take(ts@.len() as int) =~= ts@);
    }
}

/// `SHOW STATUS`: statistics as metrics and values, with a share for each
/// table, search index and time-series table. `hit_rate` is the cache's as it
/// is shown.
pub fn show_status(s: &DbStats, hit_rate: &str, searches: &Vec<InventorySearch>) -> (r: Listing)
    ensures
        views(r.columns@) == seq!["metric"@, "value"@],
        cell_rows(r.rows@) == status_rows(*s, hit_rate@, searches@),
{
    let mut rows: Vec<Vec<Cell>> = Vec::new();
    push_overall(&mut rows, s, hit_rate);
    push_tables(&mut rows, &s.per_table);
    push_series(&mut rows, &s.per_timeseries);
    push_searches(&mut rows, searches);
    push_metric(&mut rows, "timeseries_tables", s.per_timeseries.len() as u64);
    push_timeseries(&mut rows, &s.per_timeseries);
    let mut columns: Vec<String> = Vec::new();
    proof {
        assert(views(columns@) =~= Seq::<Seq<char>>::empty());
    }
    add_column(&mut columns, "metric");
    add_column(&mut columns, "value");
    proof {
        assert(views(columns@) =~= seq!["metric"@, "value"@]);
    }
    Listing { columns, rows }
}

/// What a table takes up on this node.
#[derive(Clone, Copy, Debug, PartialEq, Eq, Structural)]
pub struct TableUsage {
    pub live_keys: u64,
    pub tombstones: u64,
    pub disk_bytes: u64,
    pub sstables: u64,
}

/// What something else takes up on this node: how much it holds, and its bytes
/// on disk.
#[derive(Clone, Copy, Debug, PartialEq, Eq, Structural)]
pub struct Usage {
    pub held: u64,
    pub disk_bytes: u64,
    pub uncommitted: u64,
}

/// Whether an inventory line is that of a table.
pub open spec fn is_table_line(t: InventoryTable, e: (String, TableDef), u: TableUsage) -> bool {
    &&& t.name@ == e.0@
    &&& views(t.primary_key@) == views(e.1.primary_key@)
    &&& t.ttl_ms == e.1.ttl_ms
    &&& t.memory == e.1.memory
    &&& t.live_keys == u.live_keys
    &&& t.tombstones == u.tombstones
    &&& t.disk_bytes == u.disk_bytes
    &&& t.sstables == u.sstables
    &&& t.replication == e.1.replication
    &&& views(t.pinned_nodes@) == views(e.1.pinned_nodes@)
    &&& t.witness == e.1.witness
    &&& t.transition == (e.1.prev_placement is Some)
}

/// Whether an inventory line is that of a time-series table.
pub open spec fn is_series_line(t: InventoryTimeseries, e: (String, TsTableDef), u: Usage) -> bool {
    &&& t.name@ == e.0@
    &&& views(t.series_key@) == views(e.1.series_key@)
    &&& t.retention_ms == e.1.retention_ms
    &&& opt_view(t.rollup_of) == opt_view(e.1.rollup_of)
    &&& t.series == u.held
    &&& t.disk_bytes == u.disk_bytes
}

/// Whether an inventory line is that of a secondary index.
pub open spec fn is_index_line(t: InventoryIndex, e: (String, IndexDef), u: Usage) -> bool {
    &&& t.name@ == e.0@
    &&& t.table@ == e.1.table@
    &&& views(t.paths@) == views(e.1.paths@)
    &&& t.entries == u.held
    &&& t.disk_bytes == u.disk_bytes
}

/// Whether an inventory line is that of a vector index.
pub open spec fn is_vector_line(t: InventoryVector, e: (String, VectorIndexDef), u: Usage) -> bool {
    &&& t.name@ == e.0@
    &&& t.table@ == e.1.table@
    &&& t.path@ == e.1.path@
    &&& t.metric@ == e.1.metric@
    &&& t.dim == e.1.dim
    &&& t.ef_search == e.1.ef_search
    &&& t.vectors == u.held
    &&& t.snapshot_bytes == u.disk_bytes
}

/// Whether an inventory line is that of a search index.
pub open spec fn is_search_line(t: InventorySearch, e: (String, SearchIndexDef), u: Usage) -> bool {
    &&& t.name@ == e.0@
    &&& t.table@ == e.1.table@
    &&& views(t.paths@) == views(e.1.paths@)
    &&& t.docs == u.held
    &&& t.disk_bytes == u.disk_bytes
    &&& t.uncommitted == u.uncommitted
}

/// Whether lines are those of the definitions that are open here, in name
/// order.
pub open spec fn lines_of<T, D, U>(
    lines: Seq<T>,
    es: Seq<(String, D)>,
    usage: Map<Seq<char>, U>,
    is_line: spec_fn(T, (String, D), U) -> bool,
) -> bool
    decreases es.len(),
{
    if es.len() == 0 {
        lines.len() == 0
    } else if usage.dom().contains(es.last().0@) {
        lines.len() > 0 && is_line(lines.last(), es.last(), usage[es.last().0@]) && lines_of(
            lines.drop_last(),
            es.drop_last(),
            usage,
            is_line,
        )
    } else {
        lines_of(lines, es.drop_last(), usage, is_line)
    }
}

/// What is open on this node, and what it takes up.
pub struct NodeUsage {
    pub tables: SortedMap<String, TableUsage>,
    pub timeseries: SortedMap<String, Usage>,
    pub indexes: SortedMap<String, Usage>,
    pub vector_indexes: SortedMap<String, Usage>,
    pub search_indexes: SortedMap<String, Usage>,
}

impl NodeUsage {
    pub open spec fn wf(&self) -> bool {
        self.tables.wf() && self.timeseries.wf() && self.indexes.wf() && self.vector_indexes.wf()
            && self.search_indexes.wf()
    }
}

fn table_lines(m: &SortedMap<String, TableDef>, usage: &SortedMap<String, TableUsage>) -> (r: Vec<InventoryTable>)
    requires
        m.wf(),
        usage.wf(),
    ensures
        lines_of(
            r@,
            m.entries@,
            usage@,
            |t: InventoryTable, e: (String, TableDef), u: TableUsage| is_table_line(t, e, u),
        ),
{
    let ghost es = m.entries@;
    let ghost f = |t: InventoryTable, e: (String, TableDef), u: TableUsage| is_table_line(t, e, u);
    let mut out: Vec<InventoryTable> = Vec::new();
    let mut i: usize = 0;
    proof {
        assert(es.take(0) =~= Seq::<(String, TableDef)>::empty());
    }
    while i < m.len()
        invariant
            m.wf(),
            usage.wf(),
            es == m.entries@,
            f == (|t: InventoryTable, e: (String, TableDef), u: TableUsage| is_table_line(t, e, u)),
            i <= es.len(),
            lines_of(out@, es.take(i as int), usage@, f),
        decreases es.len() - i,
    {
        proof {
            assert(es.take(i + 1).drop_last() =~= es.take(i as int));
            assert(es.take(i + 1).last() == es[i as int]);
        }
        let name = m.key_at(i);
        let d = m.value_at(i);
        if let Some(u) = usage.get(name) {
            let ghost before = out@;
            out.push(
                InventoryTable {
                    name: name.clone(),
                    primary_key: copy_strings(&d.primary_key),
                    ttl_ms: d.ttl_ms,
                    memory: d.memory,
                    live_keys: u.live_keys,
                    tombstones: u.tombstones,
                    disk_bytes: u.disk_bytes,
                    sstables: u.sstables,
                    replication: d.replication,
                    pinned_nodes: copy_strings(&d.pinned_nodes),
                    witness: d.witness,
                    transition: d.prev_placement.is_some(),
                },
            );
            proof {
                assert(out@.drop_last() =~= before);
                assert(f(out@.last(), es[i as int], *u));
            }
        }
        i = i + 1;
    }
    proof {
        assert(es.take(es.len() as int) =~= es);
    }
    out
}

fn series_lines(m: &SortedMap<String, TsTableDef>, usage: &SortedMap<String, Usage>) -> (r: Vec<InventoryTimeseries>)
    requires
        m.wf(),
        usage.wf(),
    ensures
        lines_of(
            r@,
            m.entries@,
            usage@,
            |t: InventoryTimeseries, e: (String, TsTableDef), u: Usage| is_series_line(t, e, u),
        ),
{
    let ghost es = m.entries@;
    let ghost f = |t: InventoryTimeseries, e: (String, TsTableDef), u: Usage| is_series_line(t, e, u);
    let mut out: Vec<InventoryTimeseries> = Vec::new();
    let mut i: usize = 0;
    proof {
        assert(es.take(0) =~= Seq::<(String, TsTableDef)>::empty());
    }
    while i < m.len()
        invariant
            m.wf(),
            usage.wf(),
            es == m.entries@,
            f == (|t: InventoryTimeseries, e: (String, TsTableDef), u: Usage| is_series_line(t, e, u)),
            i <= es.len(),
            lines_of(out@, es.take(i as int), usage@, f),
        decreases es.len() - i,
    {
        proof {
            assert(es.take(i + 1).drop_last() =~= es.take(i as int));
            assert(es.take(i + 1).last() == es[i as int]);
        }
        let name = m.key_at(i);
        let d = m.value_at(i);
        if let Some(u) = usage.get(name) {
            let ghost before = out@;
            out.push(
                InventoryTimeseries {
                    name: name.clone(),
                    series_key: copy_strings(&d.series_key),
                    retention_ms: d.retention_ms,
                    rollup_of: match &d.rollup_of {
                        Some(s) => Some(s.clone()),
                        None => None,
                    },
                    series: u.held,
                    disk_bytes: u.disk_bytes,
                },
            );
            proof {
                assert(out@.drop_last() =~= before);
                assert(f(out@.last(), es[i as int], *u));
            }
        }
        i = i + 1;
    }
    proof {
        assert(es.take(es.len() as int) =~= es);
    }
    out
}

fn index_lines(m: &SortedMap<String, IndexDef>, usage: &SortedMap<String, Usage>) -> (r: Vec<InventoryIndex>)
    requires
        m.wf(),
        usage.wf(),
    ensures
        lines_of(
            r@,
            m.entries@,
            usage@,
            |t: InventoryIndex, e: (String, IndexDef), u: Usage| is_index_line(t, e, u),
        ),
{
    let ghost es = m.entries@;
    let ghost f = |t: InventoryIndex, e: (String, IndexDef), u: Usage| is_index_line(t, e, u);
    let mut out: Vec<InventoryIndex> = Vec::new();
    let mut i: usize = 0;
    proof {
        assert(es.take(0) =~= Seq::<(String, IndexDef)>::empty());
    }
    while i < m.len()
        invariant
            m.wf(),
            usage.wf(),
            es == m.entries@,
            f == (|t: InventoryIndex, e: (String, IndexDef), u: Usage| is_index_line(t, e, u)),
            i <= es.len(),
            lines_of(out@, es.take(i as int), usage@, f),
        decreases es.len() - i,
    {
        proof {
            assert(es.take(i + 1).drop_last() =~= es.take(i as int));
            assert(es.take(i + 1).last() == es[i as int]);
        }
        let name = m.key_at(i);
        let d = m.value_at(i);
        if let Some(u) = usage.get(name) {
            let ghost before = out@;
            out.push(
                InventoryIndex {
                    name: name.clone(),
                    table: d.table.clone(),
                    paths: copy_strings(&d.paths),
                    entries: u.held,
                    disk_bytes: u.disk_bytes,
                },
            );
            proof {
                assert(out@.drop_last() =~= before);
                assert(f(out@.last(), es[i as int], *u));
            }
        }
        i = i + 1;
    }
    proof {
        assert(es.take(es.len() as int) =~= es);
    }
    out
}

fn vector_lines(m: &SortedMap<String, VectorIndexDef>, usage: &SortedMap<String, Usage>) -> (r: Vec<InventoryVector>)
    requires
        m.wf(),
        usage.wf(),
    ensures
        lines_of(
            r@,
            m.entries@,
            usage@,
            |t: InventoryVector, e: (String, VectorIndexDef), u: Usage| is_vector_line(t, e, u),
        ),
{
    let ghost es = m.entries@;
    let ghost f = |t: InventoryVector, e: (String, VectorIndexDef), u: Usage| is_vector_line(t, e, u);
    let mut out: Vec<InventoryVector> = Vec::new();
    let mut i: usize = 0;
    proof {
        assert(es.take(0) =~= Seq::<(String, VectorIndexDef)>::empty());
    }
    while i < m.len()
        invariant
            m.wf(),
            usage.wf(),
            es == m.entries@,
            f == (|t: InventoryVector, e: (String, VectorIndexDef), u: Usage| is_vector_line(t, e, u)),
            i <= es.len(),
            lines_of(out@, es.take(i as int), usage@, f),
        decreases es.len() - i,
    {
        proof {
            assert(es.take(i + 1).drop_last() =~= es.take(i as int));
            assert(es.take(i + 1).last() == es[i as int]);
        }
        let name = m.key_at(i);
        let d = m.value_at(i);
        if let Some(u) = usage.get(name) {
            let ghost before = out@;
            out.push(
                InventoryVector {
                    name: name.clone(),
                    table: d.table.clone(),
                    path: d.path.clone(),
                    metric: d.metric.clone(),
                    dim: d.dim,
                    ef_search: d.ef_search,
                    vectors: u.held,
                    snapshot_bytes: u.disk_bytes,
                },
            );
            proof {
                assert(out@.drop_last() =~= before);
                assert(f(out@.last(), es[i as int], *u));
            }
        }
        i = i + 1;
    }
    proof {
        assert(es.take(es.len() as int) =~= es);
    }
    out
}

fn search_lines(m: &SortedMap<String, SearchIndexDef>, usage: &SortedMap<String, Usage>) -> (r: Vec<InventorySearch>)
    requires
        m.wf(),
        usage.wf(),
    ensures
        lines_of(
            r@,
            m.entries@,
            usage@,
            |t: InventorySearch, e: (String, SearchIndexDef), u: Usage| is_search_line(t, e, u),
        ),
{
    let ghost es = m.entries@;
    let ghost f = |t: InventorySearch, e: (String, SearchIndexDef), u: Usage| is_search_line(t, e, u);
    let mut out: Vec<InventorySearch> = Vec::new();
    let mut i: usize = 0;
    proof {
        assert(es.take(0) =~= Seq::<(String, SearchIndexDef)>::empty());
    }
    while i < m.len()
        invariant
            m.wf(),
            usage.wf(),
            es == m.entries@,
            f == (|t: InventorySearch, e: (String, SearchIndexDef), u: Usage| is_search_line(t, e, u)),
            i <= es.len(),
            lines_of(out@, es.take(i as int), usage@, f),
        decreases es.len() - i,
    {
        proof {
            assert(es.take(i + 1).drop_last() =~= es.take(i as int));
            assert(es.take(i + 1).last() == es[i as int]);
        }
        let name = m.key_at(i);
        let d = m.value_at(i);
        if let Some(u) = usage.get(name) {
            let ghost before = out@;
            out.push(
                InventorySearch {
                    name: name.clone(),
                    table: d.table.clone(),
                    paths: copy_strings(&d.paths),
                    docs: u.held,
                    disk_bytes: u.disk_bytes,
                    uncommitted: u.uncommitted,
                },
            );
            proof {
                assert(out@.drop_last() =~= before);
                assert(f(out@.last(), es[i as int], *u));
            }
        }
        i = i + 1;
    }
    proof {
        assert(es.take(es.len() as int) =~= es);
    }
    out
}

impl Database {
    /// This node's inventory: every definition that is open here, with what it
    /// takes up, in name order.
    pub fn inventory(&self, usage: &NodeUsage) -> (r: Inventory)
        requires
            self.wf(),
            usage.wf(),
        ensures
            lines_of(
                r.tables@,
                self.catalog.tables.entries@,
                usage.tables@,
                |t: InventoryTable, e: (String, TableDef), u: TableUsage| is_table_line(t, e, u),
            ),
            lines_of(
                r.timeseries@,
                self.catalog.timeseries.entries@,
                usage.timeseries@,
                |t: InventoryTimeseries, e: (String, TsTableDef), u: Usage| is_series_line(t, e, u),
            ),
            lines_of(
                r.indexes@,
                self.catalog.indexes.entries@,
                usage.indexes@,
                |t: InventoryIndex, e: (String, IndexDef), u: Usage| is_index_line(t, e, u),
            ),
            lines_of(
                r.vector_indexes@,
                self.catalog.vector_indexes.entries@,
                usage.vector_indexes@,
                |t: InventoryVector, e: (String, VectorIndexDef), u: Usage| is_vector_line(t, e, u),
            ),
            lines_of(
                r.search_indexes@,
                self.catalog.search_indexes.entries@,
                usage.search_indexes@,
                |t: InventorySearch, e: (String, SearchIndexDef), u: Usage| is_search_line(t, e, u),
            ),
    {
        Inventory {
            tables: table_lines(&self.catalog.tables, &usage.tables),
            timeseries: series_lines(&self.catalog.timeseries, &usage.timeseries),
            indexes: index_lines(&self.catalog.indexes, &usage.indexes),
            vector_indexes: vector_lines(&self.catalog.vector_indexes, &usage.vector_indexes),
            search_indexes: search_lines(&self.catalog.search_indexes, &usage.search_indexes),
        }
    }

    /// How long a table's tombstones are held for witnesses: not at all where
    /// the table is not mirrored.
    pub fn tombstone_retention_ms(&self, table: &str, ms: u64) -> (r: u64)
        requires
            self.wf(),
        ensures
            r == (if self@.cat.tables.dom().contains(table@) && !self@.cat.tables[table@].witness {
                0
            } else {
                ms
            }),
    {
        match crate::catalog::def_of(&self.catalog.tables, &table.to_owned()) {
            Some(d) => if d.witness {
                ms
            } else {
                0
            },
            None => ms,
        }
    }
}

/// The least size at which a memtable is flushed to release memory: small
/// where the node is about to shed load.
pub fn release_floor(aggressive: bool) -> (r: usize)
    ensures
        r == (if aggressive {
            65_536int
        } else {
            4_194_304int
        }),
{
    if aggressive {
        65_536
    } else {
        4_194_304
    }
}

/// The bytes given back by stores of these sizes: of those that reach the
/// floor, where the flush succeeds.
pub open spec fn given_back(stores: Seq<(usize, bool)>, floor: int) -> nat
    decreases stores.len(),
{
    if stores.len() == 0 {
        0
    } else {
        let (bytes, flushed) = stores.last();
        given_back(stores.drop_last(), floor) + (if bytes >= floor && flushed {
            bytes as nat
        } else {
            0
        })
    }
}

/// More stores give back no less.
proof fn lemma_given_back_grows(stores: Seq<(usize, bool)>, i: int, floor: int)
    requires
        0 <= i <= stores.len(),
    ensures
        given_back(stores.take(i), floor) <= given_back(stores, floor),
    decreases stores.len(),
{
    if i == stores.len() {
        assert(stores.take(i) =~= stores);
    } else {
        lemma_given_back_grows(stores.drop_last(), i, floor);
        assert(stores.drop_last().take(i) =~= stores.take(i));
    }
}

/// A floor lets no more be given back than none.
proof fn lemma_given_back_shrinks(stores: Seq<(usize, bool)>, floor: int)
    requires
        floor >= 0,
    ensures
        given_back(stores, floor) <= given_back(stores, 0),
    decreases stores.len(),
{
    if stores.len() > 0 {
        lemma_given_back_shrinks(stores.drop_last(), floor);
    }
}

/// The bytes given back by stores of these sizes.
fn sum_given_back(stores: &Vec<(usize, bool)>, floor: usize) -> (r: usize)
    requires
        given_back(stores@, floor as int) <= usize::MAX,
    ensures
        r == given_back(stores@, floor as int),
{
    let mut total: usize = 0;
    let mut i: usize = 0;
    while i < stores.len()
        invariant
            i <= stores@.len(),
            given_back(stores@, floor as int) <= usize::MAX,
            total == given_back(stores@.take(i as int), floor as int),
        decreases stores@.len() - i,
    {
        proof {
            assert(stores@.take(i + 1).drop_last() =~= stores@.take(i as int));
            assert(stores@.take(i + 1).last() == stores@[i as int]);
            lemma_given_back_grows(stores@, i + 1, floor as int);
        }
        let (bytes, flushed) = stores[i];
        if bytes >= floor && flushed {
            total = total + bytes;
        }
        i = i + 1;
    }
    proof {
        assert(stores@.take(i as int) =~= stores@);
    }
    total
}

/// The bytes given back when memory is short: from the memtables of tables and
/// indexes, and from the heads of the time series where the node is about to
/// shed load. Each store is given by its size and whether its flush succeeds.
pub fn release_memory_under_pressure(
    aggressive: bool,
    memtables: &Vec<(usize, bool)>,
    heads: &Vec<(usize, bool)>,
) -> (r: usize)
    requires
        given_back(memtables@, 0) + given_back(heads@, 0) <= usize::MAX,
    ensures
        aggressive ==> r == given_back(memtables@, 65_536) + given_back(heads@, 65_536),
        !aggressive ==> r == given_back(memtables@, 4_194_304),
{
    let floor = release_floor(aggressive);
    proof {
        lemma_given_back_shrinks(memtables@, floor as int);
        lemma_given_back_shrinks(heads@, floor as int);
    }
    let reclaimed = sum_given_back(memtables, floor);
    if aggressive {
        reclaimed + sum_given_back(heads, floor)
    } else {
        reclaimed
    }
}

} // verus!
